//! Rounded sidewalk-corner polygons joining adjacent sidewalk or shoulder
//! lanes at an intersection.
//!
//! Each `SharedSidewalkCorner` turn is rendered once: only by the pass at
//! the intersection where the turn's source lane terminates. Dead-end
//! intersections get a plain thickening of the turn geometry; equal-width
//! lane pairs a rounded loop along the turn geometry; unequal pairs a simple
//! quadrilateral, dropped when it would self-intersect.

use vstd::prelude::*;
use crate::geometry::{
    append_reversed, clean, gdist_sq, grev, gshift_pt, in_box, lemma_box_mono,
    lemma_gshift_off_bound, lemma_seg_len_pos, lemma_shift_pl_box, polys_view, pts_in_box,
    pts_view, shift_pl, thick_loop, valid_ring, GPt, Polygon, Pt, Ring, EPSILON_MM, EPSILON_SQ,
    MAP_BOUND, PT_BOUND, WORK_BOUND,
};
use crate::geometry::{
    abs_i, area2, div_t, gseg_len, gshift_off, lemma_dist_sq_bounds, lemma_div_t_rem,
    lemma_seg_len_ge_components, lemma_sqrt_floor_props, shoelace_to, MAX_SHIFT,
};
use crate::model::{Intersection, Lane, MapModel, Turn, TurnType, MAX_LANE_WIDTH};

verus! {

/// A turn's corner is rendered by the pass at intersection `i` exactly when
/// it is a sidewalk corner at `i` whose source lane terminates at `i`: the
/// rule that prevents rendering the same corner from both sides.
pub open spec fn owns_corner(map: MapModel, i: Intersection, t: Turn) -> bool {
    &&& t.id.parent == i.id
    &&& t.turn_type == TurnType::SharedSidewalkCorner
    &&& map.lanes@[t.id.src.0 as int].dst_i == i.id
}

/// The rounded loop for two lanes of equal width `w` meeting at a corner:
/// the turn geometry shifted left, the destination lane's first
/// cross-section, the turn geometry shifted right walked backwards, the
/// source lane's last cross-section, closed back to the start.
pub open spec fn equal_width_loop(l1: Lane, l2: Lane, g: Seq<GPt>, w: int) -> Seq<GPt> {
    let h = w / 2;
    let left = shift_pl(g, h);
    let l2a = l2.lane_center_pts@[0];
    let l2b = l2.lane_center_pts@[1];
    let m = l1.lane_center_pts@.len();
    let l1a = l1.lane_center_pts@[m - 2];
    let l1b = l1.lane_center_pts@[m - 1];
    left + seq![gshift_pt(l2a, l2a, l2b, h), gshift_pt(l2a, l2a, l2b, -h)] + grev(shift_pl(g, -h))
        + seq![gshift_pt(l1b, l1a, l1b, -h), gshift_pt(l1b, l1a, l1b, h), left[0]]
}

/// The simple quadrilateral joining two lanes of unequal width: the four
/// cross-section corners of the adjoining lane ends, closed.
pub open spec fn corner_quad(l1: Lane, l2: Lane) -> Seq<GPt> {
    let l2a = l2.lane_center_pts@[0];
    let l2b = l2.lane_center_pts@[1];
    let m = l1.lane_center_pts@.len();
    let l1a = l1.lane_center_pts@[m - 2];
    let l1b = l1.lane_center_pts@[m - 1];
    let p0 = gshift_pt(l2a, l2a, l2b, l2.width as int / 2);
    seq![
        p0,
        gshift_pt(l2a, l2a, l2b, -(l2.width as int / 2)),
        gshift_pt(l1b, l1a, l1b, -(l1.width as int / 2)),
        gshift_pt(l1b, l1a, l1b, l1.width as int / 2),
        p0,
    ]
}

/// The corner polygon one owned turn contributes, if its geometry permits
/// one: `None` means the piece is silently skipped.
pub open spec fn corner_for_turn(map: MapModel, i: Intersection, t: Turn) -> Option<Seq<GPt>> {
    let l1 = map.lanes@[t.id.src.0 as int];
    let l2 = map.lanes@[t.id.dst.0 as int];
    let minw = if l1.width < l2.width {
        l1.width as int
    } else {
        l2.width as int
    };
    if i.roads@.len() == 1 {
        if clean(t.geom@) && minw > EPSILON_MM {
            Some(thick_loop(t.geom@, minw))
        } else {
            None
        }
    } else if l1.width == l2.width {
        if clean(t.geom@) {
            Some(equal_width_loop(l1, l2, t.geom@, l1.width as int))
        } else {
            None
        }
    } else {
        if valid_ring(corner_quad(l1, l2)) {
            Some(corner_quad(l1, l2))
        } else {
            None
        }
    }
}

/// The corner polygons contributed by the first `k` turns of the map.
pub open spec fn corners_upto(map: MapModel, i: Intersection, k: int) -> Seq<Seq<GPt>>
    decreases k,
{
    if k <= 0 {
        Seq::empty()
    } else {
        corners_upto(map, i, k - 1) + (if owns_corner(map, i, map.turns@[k - 1]) {
            match corner_for_turn(map, i, map.turns@[k - 1]) {
                Some(p) => seq![p],
                None => Seq::empty(),
            }
        } else {
            Seq::empty()
        })
    }
}

/// All corner polygons of intersection `i`. Footway intersections draw none.
pub open spec fn corners_spec(map: MapModel, i: Intersection) -> Seq<Seq<GPt>> {
    if i.footway {
        Seq::empty()
    } else {
        corners_upto(map, i, map.turns@.len() as int)
    }
}

/// Of a sidewalk-corner turn and its mirror turn (source and destination
/// lanes exchanged), exactly one is owned — so the pair's corner is rendered
/// exactly once, never twice — whenever exactly one of the two lanes
/// terminates at the intersection.
pub proof fn lemma_corner_rendered_once(map: MapModel, i: Intersection, t1: Turn, t2: Turn)
    requires
        t1.id.parent == i.id,
        t2.id.parent == i.id,
        t1.turn_type == TurnType::SharedSidewalkCorner,
        t2.turn_type == TurnType::SharedSidewalkCorner,
        t2.id.src == t1.id.dst,
        t2.id.dst == t1.id.src,
        (map.lanes@[t1.id.src.0 as int].dst_i == i.id) != (map.lanes@[t1.id.dst.0 as int].dst_i
            == i.id),
    ensures
        owns_corner(map, i, t1) != owns_corner(map, i, t2),
{
}

/// The points of an equal-width corner loop stay within the global bound.
proof fn lemma_equal_width_loop_box(l1: Lane, l2: Lane, g: Seq<GPt>, w: int)
    requires
        pts_in_box(l1.lane_center_pts@, MAP_BOUND as int),
        pts_in_box(l2.lane_center_pts@, MAP_BOUND as int),
        clean(l1.lane_center_pts@),
        clean(l2.lane_center_pts@),
        l1.lane_center_pts@.len() >= 2,
        l2.lane_center_pts@.len() >= 2,
        pts_in_box(g, MAP_BOUND as int),
        clean(g),
        g.len() >= 2,
        0 < w <= MAX_LANE_WIDTH,
    ensures
        pts_in_box(equal_width_loop(l1, l2, g, w), PT_BOUND as int),
{
    let h = w / 2;
    let lp = equal_width_loop(l1, l2, g, w);
    let left = shift_pl(g, h);
    let right = shift_pl(g, -h);
    let n = g.len() as int;
    lemma_shift_pl_box(g, h, MAP_BOUND as int);
    lemma_shift_pl_box(g, -h, MAP_BOUND as int);
    let l2a = l2.lane_center_pts@[0];
    let l2b = l2.lane_center_pts@[1];
    let m = l1.lane_center_pts@.len();
    let l1a = l1.lane_center_pts@[m - 2];
    let l1b = l1.lane_center_pts@[m - 1];
    let j0: int = 0;
    assert(gdist_sq(l2.lane_center_pts@[j0], l2.lane_center_pts@[j0 + 1]) > EPSILON_SQ);
    let jm: int = m - 2;
    assert(gdist_sq(l1.lane_center_pts@[jm], l1.lane_center_pts@[jm + 1]) > EPSILON_SQ);
    lemma_seg_len_pos(l2a, l2b);
    lemma_seg_len_pos(l1a, l1b);
    lemma_gshift_off_bound(l2a, l2b, h);
    lemma_gshift_off_bound(l2a, l2b, -h);
    lemma_gshift_off_bound(l1a, l1b, h);
    lemma_gshift_off_bound(l1a, l1b, -h);
    assert(in_box(l2a, MAP_BOUND as int));
    assert(in_box(l1a, MAP_BOUND as int));
    assert(in_box(l1b, MAP_BOUND as int));
    assert forall|j: int| 0 <= j < lp.len() implies in_box(#[trigger] lp[j], PT_BOUND as int) by {
        if j < n {
            assert(lp[j] == left[j]);
            assert(in_box(left[j], MAP_BOUND as int + h));
        } else if j < n + 2 {
            lemma_gshift_off_bound(l2a, l2b, h);
            lemma_gshift_off_bound(l2a, l2b, -h);
        } else if j < 2 * n + 2 {
            assert(lp[j] == grev(right)[j - n - 2]);
            assert(grev(right)[j - n - 2] == right[n - 1 - (j - n - 2)]);
            assert(in_box(right[n - 1 - (j - n - 2)], MAP_BOUND as int + h));
        } else if j < 2 * n + 4 {
            lemma_gshift_off_bound(l1a, l1b, -h);
            lemma_gshift_off_bound(l1a, l1b, h);
        } else {
            assert(lp[j] == left[0]);
            assert(in_box(left[0], MAP_BOUND as int + h));
        }
    }
}

/// Computes the sidewalk-corner polygons of intersection `i`.
#[verifier::loop_isolation(false)]
pub fn calculate_corners(i: &Intersection, map: &MapModel) -> (r: Vec<Polygon>)
    requires
        map.wf(),
        i.id.0 < map.n_inters(),
        *i == map.intersections@[i.id.0 as int],
    ensures
        polys_view(r@) == corners_spec(*map, *i),
        forall|k: int| 0 <= k < r@.len() ==> (#[trigger] r@[k]).wf(),
{
    let mut out: Vec<Polygon> = Vec::new();
    if i.footway {
        proof {
            assert(polys_view(out@) =~= corners_spec(*map, *i));
        }
        return out;
    }
    let n = map.turns.len();
    let mut k: usize = 0;
    while k < n
        invariant
            polys_view(out@) =~= corners_upto(*map, *i, k as int),
            forall|j: int| 0 <= j < out@.len() ==> (#[trigger] out@[j]).wf(),
            k <= n,
        decreases n - k,
    {
        let t = &map.turns[k];
        let ghost prev = out@;
        proof {
            assert(map.turns@[k as int].wf(map.n_lanes(), map.n_inters()));
            lemma_box_mono(t.geom@, MAP_BOUND as int, WORK_BOUND as int);
        }
        if t.id.parent == i.id && t.turn_type == TurnType::SharedSidewalkCorner {
            let l1 = map.get_l(t.id.src);
            if l1.dst_i == i.id {
                let l2 = map.get_l(t.id.dst);
                let minw = if l1.width < l2.width {
                    l1.width
                } else {
                    l2.width
                };
                proof {
                    lemma_box_mono(
                        l1.lane_center_pts@,
                        MAP_BOUND as int,
                        WORK_BOUND as int,
                    );
                    lemma_box_mono(
                        l2.lane_center_pts@,
                        MAP_BOUND as int,
                        WORK_BOUND as int,
                    );
                }
                if i.roads.len() == 1 {
                    // Dead end: nothing to round against, just thicken.
                    match t.geom.make_polygons(minw) {
                        Some(p) => {
                            out.push(p);
                            proof {
                                assert(polys_view(out@) =~= polys_view(prev).push(p@));
                            }
                        },
                        None => {},
                    }
                } else if l1.width == l2.width {
                    // Two sidewalks or two shoulders meet: use the turn
                    // geometry to create some rounding.
                    let h = l1.width / 2;
                    match t.geom.shift_either(h) {
                        Some(left) => {
                            let right = match t.geom.shift_either(-h) {
                                Some(pl) => pl,
                                None => {
                                    proof {
                                        assert(false);
                                    }
                                    return out;
                                },
                            };
                            proof {
                                let j0: int = 0;
                                assert(gdist_sq(
                                    l2.lane_center_pts@[j0],
                                    l2.lane_center_pts@[j0 + 1],
                                ) > EPSILON_SQ);
                                let jm: int = l1.lane_center_pts@.len() - 2;
                                assert(gdist_sq(
                                    l1.lane_center_pts@[jm],
                                    l1.lane_center_pts@[jm + 1],
                                ) > EPSILON_SQ);
                            }
                            let l2_first = l2.lane_center_pts.first_line();
                            let l1_last = l1.lane_center_pts.last_line();
                            let la = l2_first.shift(h);
                            let lb = l2_first.shift(-h);
                            let lc = l1_last.shift(-h);
                            let ld = l1_last.shift(h);
                            let first_pt = left.get_pt(0);
                            let ghost hh = l1.width as int / 2;
                            let ghost leftv = shift_pl(t.geom@, hh);
                            let ghost rightv = shift_pl(t.geom@, -hh);
                            let mut pts: Vec<Pt> = left.pts;
                            pts.push(la.p1);
                            pts.push(lb.p1);
                            proof {
                                assert(pts_view(pts@) =~= leftv + seq![la.p1@, lb.p1@]);
                            }
                            append_reversed(&mut pts, &right.pts);
                            proof {
                                assert(pts_view(pts@) =~= leftv + seq![la.p1@, lb.p1@]
                                    + grev(rightv));
                            }
                            pts.push(lc.p2);
                            pts.push(ld.p2);
                            pts.push(first_pt);
                            let ghost loop_spec = equal_width_loop(
                                *l1,
                                *l2,
                                t.geom@,
                                l1.width as int,
                            );
                            proof {
                                assert(pts_view(pts@) =~= (leftv + seq![la.p1@, lb.p1@]
                                    + grev(rightv)).push(lc.p2@).push(ld.p2@).push(first_pt@));
                                assert(first_pt@ == leftv[0]);
                                assert(pts_view(pts@) =~= loop_spec);
                                lemma_equal_width_loop_box(
                                    *l1,
                                    *l2,
                                    t.geom@,
                                    l1.width as int,
                                );
                            }
                            let p = Polygon::from_loop(pts);
                            out.push(p);
                            proof {
                                assert(polys_view(out@) =~= polys_view(prev).push(p@));
                            }
                        },
                        None => {},
                    }
                } else {
                    // A sidewalk and a shoulder meet: a simpler shape.
                    proof {
                        let j0: int = 0;
                        assert(gdist_sq(l2.lane_center_pts@[j0], l2.lane_center_pts@[j0 + 1])
                            > EPSILON_SQ);
                        let jm: int = l1.lane_center_pts@.len() - 2;
                        assert(gdist_sq(l1.lane_center_pts@[jm], l1.lane_center_pts@[jm + 1])
                            > EPSILON_SQ);
                    }
                    let l2_first = l2.lane_center_pts.first_line();
                    let l1_last = l1.lane_center_pts.last_line();
                    let h2 = l2.width / 2;
                    let h1 = l1.width / 2;
                    let pa = l2_first.shift(h2).p1;
                    let pb = l2_first.shift(-h2).p1;
                    let pc = l1_last.shift(-h1).p2;
                    let pd = l1_last.shift(h1).p2;
                    let mut pts: Vec<Pt> = Vec::new();
                    pts.push(pa);
                    pts.push(pb);
                    pts.push(pc);
                    pts.push(pd);
                    pts.push(pa);
                    proof {
                        assert(pts_view(pts@) =~= corner_quad(*l1, *l2));
                    }
                    match Ring::new(pts) {
                        Some(ring) => {
                            let p = ring.into_polygon();
                            out.push(p);
                            proof {
                                assert(polys_view(out@) =~= polys_view(prev).push(p@));
                            }
                        },
                        None => {},
                    }
                }
            }
        }
        proof {
            assert(polys_view(out@) =~= corners_upto(*map, *i, k as int + 1));
        }
        k = k + 1;
    }
    out
}

/// Dead-end corner area: for a dead-end intersection the corner polygon is
/// the turn geometry thickened to the smaller lane width, and for a
/// single-segment turn geometry its (doubled) enclosed area is within
/// integer rounding tolerance of twice the geometry's length times that
/// width.
#[verifier::rlimit(100)]
pub proof fn lemma_dead_end_corner_area(a: GPt, b: GPt, w: int)
    requires
        in_box(a, PT_BOUND as int),
        in_box(b, PT_BOUND as int),
        gdist_sq(a, b) > EPSILON_SQ,
        EPSILON_MM < w <= MAX_SHIFT,
    ensures
        abs_i(area2(thick_loop(seq![a, b], w)) - 2 * gseg_len(a, b) * w) <= 10 * gseg_len(a, b)
            + 6 * w,
{
    let g = seq![a, b];
    let h = w / 2;
    let len = gseg_len(a, b);
    let s = gdist_sq(a, b);
    lemma_seg_len_pos(a, b);
    lemma_dist_sq_bounds(a, b);
    lemma_sqrt_floor_props(s);
    lemma_seg_len_ge_components(a, b);
    let dx = b.x - a.x;
    let dy = b.y - a.y;
    let o = gshift_off(a, b, h);
    let ox = o.x;
    let oy = o.y;
    // The four corners of the thickened loop.
    let tl = thick_loop(g, w);
    let left = shift_pl(g, h);
    let right = shift_pl(g, -h);
    assert(left.len() == 2 && right.len() == 2);
    assert(tl.len() == 4);
    let p0 = tl[0];
    let p1 = tl[1];
    let p2 = tl[2];
    let p3 = tl[3];
    assert(p0 == gshift_pt(a, a, b, h));
    assert(p1 == gshift_pt(b, a, b, h));
    assert(p2 == grev(right)[0] && grev(right)[0] == right[1]);
    assert(p3 == grev(right)[1] && grev(right)[1] == right[0]);
    assert(p2 == gshift_pt(b, a, b, -h));
    assert(p3 == gshift_pt(a, a, b, -h));
    let on = gshift_off(a, b, -h);
    // The opposite shift negates the offset exactly.
    assert((b.y - a.y) * (-h) == -((b.y - a.y) * h)) by (nonlinear_arith);
    assert((a.x - b.x) * (-h) == -((a.x - b.x) * h)) by (nonlinear_arith);
    crate::geometry::lemma_div_t_neg((b.y - a.y) * h, len);
    crate::geometry::lemma_div_t_neg((a.x - b.x) * h, len);
    assert(on.x == -ox && on.y == -oy);
    // The shoelace sum of the parallelogram.
    let sum = shoelace_to(tl, 3) + (p3.x * p0.y - p0.x * p3.y);
    assert(shoelace_to(tl, 0) == 0);
    assert(shoelace_to(tl, 1) == (p0.x * p1.y - p1.x * p0.y));
    assert(shoelace_to(tl, 2) == shoelace_to(tl, 1) + (p1.x * p2.y - p2.x * p1.y));
    assert(shoelace_to(tl, 3) == shoelace_to(tl, 2) + (p2.x * p3.y - p3.x * p2.y));
    assert(sum == -4 * (dx * oy - dy * ox)) by (nonlinear_arith)
        requires
            p0.x == a.x + ox && p0.y == a.y + oy,
            p1.x == b.x + ox && p1.y == b.y + oy,
            p2.x == b.x - ox && p2.y == b.y - oy,
            p3.x == a.x - ox && p3.y == a.y - oy,
            dx == b.x - a.x,
            dy == b.y - a.y,
            sum == (p0.x * p1.y - p1.x * p0.y) + (p1.x * p2.y - p2.x * p1.y) + (p2.x * p3.y
                - p3.x * p2.y) + (p3.x * p0.y - p0.x * p3.y),
    ;
    // Relate the cross product to length times width.
    let q1 = ox;
    let q2 = oy;
    let t = dy * q1 - dx * q2;
    assert(sum == 4 * t) by (nonlinear_arith)
        requires
            sum == -4 * (dx * q2 - dy * q1),
            t == dy * q1 - dx * q2,
    ;
    lemma_div_t_rem(dy * h, len);
    lemma_div_t_rem((a.x - b.x) * h, len);
    let u = a.x - b.x;
    let r1 = dy * h - len * q1;
    assert(-len < r1 < len);
    let r2 = u * h - len * div_t(u * h, len);
    assert(-len < r2 < len);
    assert(q2 == div_t(u * h, len));
    assert(t == dy * q1 + u * q2) by (nonlinear_arith)
        requires
            t == dy * q1 - dx * q2,
            dx == -u,
    ;
    assert(s == u * u + dy * dy) by (nonlinear_arith)
        requires
            s == dx * dx + dy * dy,
            dx == -u,
    ;
    assert(t * len == len * (dy * q1) + len * (u * q2)) by (nonlinear_arith)
        requires
            t == dy * q1 + u * q2,
    ;
    assert(len * (dy * q1) == dy * (len * q1)) by (nonlinear_arith);
    assert(len * (u * q2) == u * (len * q2)) by (nonlinear_arith);
    assert(dy * (len * q1) == dy * (dy * h) - dy * r1) by (nonlinear_arith)
        requires
            len * q1 == dy * h - r1,
    ;
    assert(u * (len * q2) == u * (u * h) - u * r2) by (nonlinear_arith)
        requires
            len * q2 == u * h - r2,
    ;
    assert(dy * (dy * h) + u * (u * h) == h * s) by (nonlinear_arith)
        requires
            s == u * u + dy * dy,
    ;
    assert(t * len == h * s - (dy * r1 + u * r2));
    let err = dy * r1 + u * r2;
    assert(-(2 * (len * len)) <= err <= 2 * (len * len)) by (nonlinear_arith)
        requires
            err == dy * r1 + u * r2,
            -len <= dy <= len,
            -len <= u <= len,
            -len < r1 < len,
            -len < r2 < len,
            len >= 0,
    ;
    assert(len * len <= h * s <= h * (len * len) + h * (2 * len) + h) by (nonlinear_arith)
        requires
            len * len <= s,
            s < (len + 1) * (len + 1),
            h >= 1,
            len >= 1,
    ;
    assert(h * (len * len) <= h * s) by (nonlinear_arith)
        requires
            len * len <= s,
            h >= 1,
    ;
    // Divide through by the (positive) length.
    assert(t >= (h - 2) * len) by (nonlinear_arith)
        requires
            t * len >= h * (len * len) - 2 * (len * len),
            len > 0,
    ;
    assert(t <= h * len + 3 * h + 2 * len) by (nonlinear_arith)
        requires
            t * len <= h * (len * len) + h * (2 * len) + h + 2 * (len * len),
            len >= 1,
            h >= 1,
    ;
    assert(t >= 0) by (nonlinear_arith)
        requires
            t >= (h - 2) * len,
            h >= 5,
            len >= 0,
    ;
    assert((h - 2) * len == h * len - 2 * len) by (nonlinear_arith);
    // The loop area versus length times width.
    assert(area2(tl) == abs_i(sum));
    assert(abs_i(sum) == 4 * t);
    assert(2 * h <= w <= 2 * h + 1);
    assert(abs_i(4 * t - 2 * len * w) <= 10 * len + 6 * w) by (nonlinear_arith)
        requires
            h * len - 2 * len <= t <= h * len + 3 * h + 2 * len,
            2 * h <= w <= 2 * h + 1,
            len >= 1,
            h >= 5,
            w >= 11,
    ;
}

} // verus!
