//! Directional arrows at border intersections, showing where traffic enters
//! and leaves the mapped area.
//!
//! The arrows sit on the road's direction-change-aware centerline, 9.5 m to
//! 0.5 m back from the intersection, at a third of the relevant directional
//! width. An intersection with outgoing lanes gets an arrow pointing from
//! the void toward the road; one with incoming lanes the mirror arrow.

use vstd::prelude::*;
use crate::geometry::{
    arrow_loop, clean, galong, gdist_sq, gshift_pt, in_box, lemma_along_pts_apart, lemma_box_mono,
    lemma_galong_near, lemma_gdist_sq_sym, lemma_gshift_off_bound, lemma_seg_len_pos, polys_view,
    pts_view, GPt, Polygon, PolyLine, Pt, EPSILON_MM, EPSILON_SQ, MAP_BOUND,
    PT_BOUND, WORK_BOUND,
};
use crate::model::{Direction, Intersection, MapModel, Road, MAX_LANE_WIDTH};

verus! {

/// Distance back from the intersection at which a border arrow starts, in
/// mm: twice the degenerate-intersection half-length (2.5 m) plus margins, a
/// fixed design constant.
pub const ARROW_FAR_MM: i64 = 9_500;

/// Distance back from the intersection at which a border arrow ends (mm).
pub const ARROW_NEAR_MM: i64 = 500;

/// Sum of the widths of the first `k` lanes of `r` travelling in direction
/// `dir`.
pub open spec fn width_sum(map: MapModel, r: Road, dir: Direction, k: int) -> int
    decreases k,
{
    if k <= 0 {
        0
    } else {
        width_sum(map, r, dir, k - 1) + (if r.lanes_ltr@[k - 1].1 == dir {
            map.lanes@[r.lanes_ltr@[k - 1].0.0 as int].width as int
        } else {
            0
        })
    }
}

/// Total width of the forward lanes of `r`.
pub open spec fn width_fwd(map: MapModel, r: Road) -> int {
    width_sum(map, r, Direction::Fwd, r.lanes_ltr@.len() as int)
}

/// Total width of the backward lanes of `r`.
pub open spec fn width_back(map: MapModel, r: Road) -> int {
    width_sum(map, r, Direction::Back, r.lanes_ltr@.len() as int)
}

/// The base line of the arrow for traffic entering the map at `i` along
/// `r`: a pair (start, toward) on the shifted centerline, and the arrow
/// width. Which end of the centerline is used depends on which end of the
/// road touches the intersection.
pub open spec fn out_arrow_base(map: MapModel, i: Intersection, r: Road) -> (GPt, GPt, int) {
    let dc = r.dir_change_pl@;
    let m = dc.len();
    if r.dst_i == i.id {
        let w = width_back(map, r);
        (
            gshift_pt(dc[m - 1], dc[m - 2], dc[m - 1], w / 2),
            gshift_pt(dc[m - 2], dc[m - 2], dc[m - 1], w / 2),
            w,
        )
    } else {
        let w = width_fwd(map, r);
        (
            gshift_pt(dc[0], dc[0], dc[1], -(w / 2)),
            gshift_pt(dc[1], dc[0], dc[1], -(w / 2)),
            w,
        )
    }
}

/// The base line and width of the arrow for traffic leaving the map.
pub open spec fn in_arrow_base(map: MapModel, i: Intersection, r: Road) -> (GPt, GPt, int) {
    let dc = r.dir_change_pl@;
    let m = dc.len();
    if r.dst_i == i.id {
        let w = width_fwd(map, r);
        (
            gshift_pt(dc[m - 1], dc[m - 2], dc[m - 1], -(w / 2)),
            gshift_pt(dc[m - 2], dc[m - 2], dc[m - 1], -(w / 2)),
            w,
        )
    } else {
        let w = width_back(map, r);
        (
            gshift_pt(dc[0], dc[0], dc[1], w / 2),
            gshift_pt(dc[1], dc[0], dc[1], w / 2),
            w,
        )
    }
}

/// The void-to-road arrow polygon, when geometry permits one.
pub open spec fn out_arrow_piece(map: MapModel, i: Intersection, r: Road) -> Option<Seq<GPt>> {
    let (p1, p2, w) = out_arrow_base(map, i, r);
    let pl = seq![galong(p1, p2, -ARROW_FAR_MM as int), galong(p1, p2, -ARROW_NEAR_MM as int)];
    if clean(pl) && w / 3 > EPSILON_MM {
        Some(arrow_loop(pl, w / 3))
    } else {
        None
    }
}

/// The road-to-void arrow polygon, when geometry permits one.
pub open spec fn in_arrow_piece(map: MapModel, i: Intersection, r: Road) -> Option<Seq<GPt>> {
    let (p1, p2, w) = in_arrow_base(map, i, r);
    let pl = seq![galong(p1, p2, -ARROW_NEAR_MM as int), galong(p1, p2, -ARROW_FAR_MM as int)];
    if clean(pl) && w / 3 > EPSILON_MM {
        Some(arrow_loop(pl, w / 3))
    } else {
        None
    }
}

/// All border arrows of `i` along its one connected road `r`: one per
/// populated travel direction.
pub open spec fn border_arrows_spec(map: MapModel, i: Intersection, r: Road) -> Seq<Seq<GPt>> {
    (if i.outgoing_lanes@.len() > 0 {
        match out_arrow_piece(map, i, r) {
            Some(p) => seq![p],
            None => Seq::<Seq<GPt>>::empty(),
        }
    } else {
        Seq::<Seq<GPt>>::empty()
    }) + (if i.incoming_lanes@.len() > 0 {
        match in_arrow_piece(map, i, r) {
            Some(p) => seq![p],
            None => Seq::<Seq<GPt>>::empty(),
        }
    } else {
        Seq::<Seq<GPt>>::empty()
    })
}

/// Exact arrow count: zero arrows when the intersection has neither
/// incoming nor outgoing lanes, exactly one when only one direction is
/// populated, and two when both are — provided each populated direction is
/// at least 33 mm wide (so a third of it clears the degeneracy tolerance).
pub proof fn lemma_border_arrow_count(map: MapModel, i: Intersection, r: Road)
    requires
        map.wf(),
        r.id.0 < map.n_roads(),
        r == map.roads@[r.id.0 as int],
        i.outgoing_lanes@.len() > 0 ==> out_arrow_base(map, i, r).2 >= 33,
        i.incoming_lanes@.len() > 0 ==> in_arrow_base(map, i, r).2 >= 33,
    ensures
        border_arrows_spec(map, i, r).len() == (if i.outgoing_lanes@.len() > 0 {
            1int
        } else {
            0int
        }) + (if i.incoming_lanes@.len() > 0 {
            1int
        } else {
            0int
        }),
{
    let dc = r.dir_change_pl@;
    let m = dc.len();
    assert(r.wf(map.n_lanes(), map.n_inters()));
    let j0: int = 0;
    assert(gdist_sq(dc[j0], dc[j0 + 1]) > EPSILON_SQ);
    let jm: int = m - 2;
    assert(gdist_sq(dc[jm], dc[jm + 1]) > EPSILON_SQ);
    assert(in_box(dc[j0], MAP_BOUND as int));
    assert(in_box(dc[j0 + 1], MAP_BOUND as int));
    assert(in_box(dc[jm], MAP_BOUND as int));
    assert(in_box(dc[jm + 1], MAP_BOUND as int));
    lemma_seg_len_pos(dc[0], dc[1]);
    lemma_seg_len_pos(dc[m - 2], dc[m - 1]);
    if i.outgoing_lanes@.len() > 0 {
        let (p1, p2, w) = out_arrow_base(map, i, r);
        lemma_arrow_base_apart(map, i, r, p1, p2, true);
        assert(out_arrow_piece(map, i, r) is Some);
    }
    if i.incoming_lanes@.len() > 0 {
        let (p1, p2, w) = in_arrow_base(map, i, r);
        lemma_arrow_base_apart(map, i, r, p1, p2, false);
        assert(in_arrow_piece(map, i, r) is Some);
    }
}

/// The two anchor points of either border arrow are never degenerate.
proof fn lemma_arrow_base_apart(map: MapModel, i: Intersection, r: Road, p1: GPt, p2: GPt,
    out: bool)
    requires
        map.wf(),
        r.id.0 < map.n_roads(),
        r == map.roads@[r.id.0 as int],
        out ==> (p1, p2) == (out_arrow_base(map, i, r).0, out_arrow_base(map, i, r).1),
        !out ==> (p1, p2) == (in_arrow_base(map, i, r).0, in_arrow_base(map, i, r).1),
    ensures
        clean(seq![galong(p1, p2, -ARROW_FAR_MM as int), galong(p1, p2, -ARROW_NEAR_MM as int)]),
        clean(seq![galong(p1, p2, -ARROW_NEAR_MM as int), galong(p1, p2, -ARROW_FAR_MM as int)]),
{
    let dc = r.dir_change_pl@;
    let m = dc.len();
    assert(r.wf(map.n_lanes(), map.n_inters()));
    let j0: int = 0;
    assert(gdist_sq(dc[j0], dc[j0 + 1]) > EPSILON_SQ);
    let jm: int = m - 2;
    assert(gdist_sq(dc[jm], dc[jm + 1]) > EPSILON_SQ);
    assert(in_box(dc[j0], MAP_BOUND as int));
    assert(in_box(dc[j0 + 1], MAP_BOUND as int));
    assert(in_box(dc[jm], MAP_BOUND as int));
    assert(in_box(dc[jm + 1], MAP_BOUND as int));
    lemma_seg_len_pos(dc[0], dc[1]);
    lemma_seg_len_pos(dc[m - 2], dc[m - 1]);
    lemma_width_sum_bound(map, r, Direction::Fwd, r.lanes_ltr@.len() as int);
    lemma_width_sum_bound(map, r, Direction::Back, r.lanes_ltr@.len() as int);
    // The shift translates both endpoints by the same offset, so the
    // squared distance and hence the floor length are preserved exactly.
    let wb = width_back(map, r);
    let wf = width_fwd(map, r);
    assert(0 <= wb <= 900_000 && 0 <= wf <= 900_000) by {
        assert(r.lanes_ltr@.len() * MAX_LANE_WIDTH <= 30 * MAX_LANE_WIDTH) by (nonlinear_arith)
            requires
                r.lanes_ltr@.len() <= 30,
                MAX_LANE_WIDTH > 0,
        ;
    }
    if r.dst_i == i.id {
        let dd: int = if out {
            wb / 2
        } else {
            -(wf / 2)
        };
        lemma_gshift_off_bound(dc[m - 2], dc[m - 1], dd);
        assert(gdist_sq(p1, p2) == gdist_sq(dc[m - 1], dc[m - 2]));
        lemma_gdist_sq_sym(dc[m - 2], dc[m - 1]);
        lemma_seg_len_pos(dc[m - 1], dc[m - 2]);
        assert(in_box(p1, PT_BOUND as int));
        assert(in_box(p2, PT_BOUND as int));
    } else {
        let dd: int = if out {
            -(wf / 2)
        } else {
            wb / 2
        };
        lemma_gshift_off_bound(dc[0], dc[1], dd);
        assert(gdist_sq(p1, p2) == gdist_sq(dc[0], dc[1]));
        lemma_seg_len_pos(dc[0], dc[1]);
        assert(in_box(p1, PT_BOUND as int));
        assert(in_box(p2, PT_BOUND as int));
    }
    lemma_along_pts_apart(p1, p2);
    let qf = galong(p1, p2, -ARROW_FAR_MM as int);
    let qn = galong(p1, p2, -ARROW_NEAR_MM as int);
    lemma_gdist_sq_sym(qf, qn);
    let s1 = seq![qf, qn];
    assert forall|ii: int| 0 <= ii < s1.len() - 1 implies #[trigger] gdist_sq(s1[ii], s1[ii + 1])
        > EPSILON_SQ by {
        assert(ii == 0);
        assert(s1[0] == qf && s1[1] == qn);
    }
    let s2 = seq![qn, qf];
    assert forall|ii: int| 0 <= ii < s2.len() - 1 implies #[trigger] gdist_sq(s2[ii], s2[ii + 1])
        > EPSILON_SQ by {
        assert(ii == 0);
        assert(s2[0] == qn && s2[1] == qf);
    }
    assert(clean(s1));
    assert(clean(s2));
}

/// The directional width sums are nonnegative and bounded.
pub proof fn lemma_width_sum_bound(map: MapModel, r: Road, dir: Direction, k: int)
    requires
        map.wf(),
        r.id.0 < map.n_roads(),
        r == map.roads@[r.id.0 as int],
        0 <= k <= r.lanes_ltr@.len(),
    ensures
        0 <= width_sum(map, r, dir, k),
        width_sum(map, r, dir, k) <= k * MAX_LANE_WIDTH,
    decreases k,
{
    if k <= 0 {
    } else {
        lemma_width_sum_bound(map, r, dir, k - 1);
        assert(k * MAX_LANE_WIDTH == (k - 1) * MAX_LANE_WIDTH + MAX_LANE_WIDTH)
            by (nonlinear_arith);
        assert(r.wf(map.n_lanes(), map.n_inters()));
        if r.lanes_ltr@[k - 1].1 == dir {
            assert(r.lanes_ltr@[k - 1].0.0 < map.n_lanes());
            assert(map.lanes@[r.lanes_ltr@[k - 1].0.0 as int].wf(
                map.n_roads(),
                map.n_inters(),
            ));
        }
    }
}

/// Computes the border arrows of the border intersection `i`, whose one
/// connected road is `r`. Emits zero arrows when the intersection has
/// neither incoming nor outgoing lanes, one when only one direction is
/// populated, and two when both are.
#[verifier::loop_isolation(false)]
#[verifier::rlimit(80)]
pub fn calculate_border_arrows(i: &Intersection, r: &Road, map: &MapModel) -> (res: Vec<Polygon>)
    requires
        map.wf(),
        i.id.0 < map.n_inters(),
        *i == map.intersections@[i.id.0 as int],
        r.id.0 < map.n_roads(),
        *r == map.roads@[r.id.0 as int],
    ensures
        polys_view(res@) == border_arrows_spec(*map, *i, *r),
{
    proof {
        assert(r.wf(map.n_lanes(), map.n_inters()));
    }
    let mut w_fwd: i64 = 0;
    let mut w_back: i64 = 0;
    let nl = r.lanes_ltr.len();
    let mut idx: usize = 0;
    while idx < nl
        invariant
            w_fwd == width_sum(*map, *r, Direction::Fwd, idx as int),
            w_back == width_sum(*map, *r, Direction::Back, idx as int),
            0 <= w_fwd <= idx * MAX_LANE_WIDTH,
            0 <= w_back <= idx * MAX_LANE_WIDTH,
            idx <= nl,
        decreases nl - idx,
    {
        proof {
            assert((r.lanes_ltr@[idx as int]).0.0 < map.n_lanes());
            assert((idx + 1) * MAX_LANE_WIDTH == idx * MAX_LANE_WIDTH + MAX_LANE_WIDTH)
                by (nonlinear_arith);
        }
        let (l, dir, _lt) = r.lanes_ltr[idx];
        let lane = map.get_l(l);
        if matches!(dir, Direction::Fwd) {
            w_fwd = w_fwd + lane.width;
        } else {
            w_back = w_back + lane.width;
        }
        idx = idx + 1;
    }
    proof {
        assert(nl * MAX_LANE_WIDTH <= 30 * MAX_LANE_WIDTH) by (nonlinear_arith)
            requires
                nl <= 30,
                MAX_LANE_WIDTH > 0,
        ;
        let dc = r.dir_change_pl@;
        let j0: int = 0;
        assert(gdist_sq(dc[j0], dc[j0 + 1]) > EPSILON_SQ);
        let jm: int = dc.len() - 2;
        assert(gdist_sq(dc[jm], dc[jm + 1]) > EPSILON_SQ);
        assert(in_box(dc[j0], MAP_BOUND as int));
        assert(in_box(dc[j0 + 1], MAP_BOUND as int));
        assert(in_box(dc[jm], MAP_BOUND as int));
        assert(in_box(dc[jm + 1], MAP_BOUND as int));
        lemma_box_mono(dc, MAP_BOUND as int, WORK_BOUND as int);
    }
    let mut res: Vec<Polygon> = Vec::new();
    // Arrows pointing from the void toward the road.
    if i.outgoing_lanes.len() > 0 {
        let (line, w) = if r.dst_i == i.id {
            (r.dir_change_pl.last_line().shift(w_back / 2).reverse(), w_back)
        } else {
            (r.dir_change_pl.first_line().shift(-(w_fwd / 2)), w_fwd)
        };
        let ghost base = out_arrow_base(*map, *i, *r);
        proof {
            let dc = r.dir_change_pl@;
            let jm: int = dc.len() - 2;
            if r.dst_i == i.id {
                lemma_seg_len_pos(dc[jm], dc[jm + 1]);
                lemma_gshift_off_bound(dc[jm], dc[jm + 1], w_back as int / 2);
            } else {
                lemma_seg_len_pos(dc[0], dc[1]);
                lemma_gshift_off_bound(dc[0], dc[1], -(w_fwd as int / 2));
            }
            lemma_gdist_sq_sym(line.p2@, line.p1@);
            assert(line.p1@ == base.0 && line.p2@ == base.1 && w as int == base.2);
            assert(line.wf());
            assert(in_box(line.p1@, 10_500_000));
            assert(in_box(line.p2@, 10_500_000));
        }
        let pa = line.unbounded_dist_along(-ARROW_FAR_MM);
        let pb = line.unbounded_dist_along(-ARROW_NEAR_MM);
        let ghost prev = res@;
        if w / 3 > 0 {
            proof {
                lemma_seg_len_pos(line.p1@, line.p2@);
                lemma_galong_near(line.p1@, line.p2@, -(ARROW_FAR_MM as int));
                lemma_galong_near(line.p1@, line.p2@, -(ARROW_NEAR_MM as int));
                assert(in_box(pa@, WORK_BOUND as int));
                assert(in_box(pb@, WORK_BOUND as int));
            }
            let mut pts: Vec<Pt> = Vec::new();
            pts.push(pa);
            pts.push(pb);
            proof {
                assert(pts_view(pts@) =~= seq![
                    galong(base.0, base.1, -ARROW_FAR_MM as int),
                    galong(base.0, base.1, -ARROW_NEAR_MM as int),
                ]);
            }
            let pl = PolyLine::new(pts);
            match pl.make_arrow(w / 3) {
                Some(p) => {
                    res.push(p);
                    proof {
                        assert(polys_view(res@) =~= polys_view(prev).push(p@));
                    }
                },
                None => {},
            }
        }
    }
    let ghost first_part = polys_view(res@);
    proof {
        assert(first_part =~= (if i.outgoing_lanes@.len() > 0 {
            match out_arrow_piece(*map, *i, *r) {
                Some(p) => seq![p],
                None => Seq::<Seq<GPt>>::empty(),
            }
        } else {
            Seq::<Seq<GPt>>::empty()
        }));
    }
    // Arrows pointing from the road out to the void.
    if i.incoming_lanes.len() > 0 {
        let (line, w) = if r.dst_i == i.id {
            (r.dir_change_pl.last_line().shift(-(w_fwd / 2)).reverse(), w_fwd)
        } else {
            (r.dir_change_pl.first_line().shift(w_back / 2), w_back)
        };
        let ghost base = in_arrow_base(*map, *i, *r);
        proof {
            let dc = r.dir_change_pl@;
            let jm: int = dc.len() - 2;
            if r.dst_i == i.id {
                lemma_seg_len_pos(dc[jm], dc[jm + 1]);
                lemma_gshift_off_bound(dc[jm], dc[jm + 1], -(w_fwd as int / 2));
            } else {
                lemma_seg_len_pos(dc[0], dc[1]);
                lemma_gshift_off_bound(dc[0], dc[1], w_back as int / 2);
            }
            lemma_gdist_sq_sym(line.p2@, line.p1@);
            assert(line.p1@ == base.0 && line.p2@ == base.1 && w as int == base.2);
            assert(line.wf());
            assert(in_box(line.p1@, 10_500_000));
            assert(in_box(line.p2@, 10_500_000));
        }
        let pa = line.unbounded_dist_along(-ARROW_NEAR_MM);
        let pb = line.unbounded_dist_along(-ARROW_FAR_MM);
        let ghost prev = res@;
        if w / 3 > 0 {
            proof {
                lemma_seg_len_pos(line.p1@, line.p2@);
                lemma_galong_near(line.p1@, line.p2@, -(ARROW_FAR_MM as int));
                lemma_galong_near(line.p1@, line.p2@, -(ARROW_NEAR_MM as int));
                assert(in_box(pa@, WORK_BOUND as int));
                assert(in_box(pb@, WORK_BOUND as int));
            }
            let mut pts: Vec<Pt> = Vec::new();
            pts.push(pa);
            pts.push(pb);
            proof {
                assert(pts_view(pts@) =~= seq![
                    galong(base.0, base.1, -ARROW_NEAR_MM as int),
                    galong(base.0, base.1, -ARROW_FAR_MM as int),
                ]);
            }
            let pl = PolyLine::new(pts);
            match pl.make_arrow(w / 3) {
                Some(p) => {
                    res.push(p);
                    proof {
                        assert(polys_view(res@) =~= polys_view(prev).push(p@));
                    }
                },
                None => {},
            }
        }
    }
    proof {
        assert(polys_view(res@) =~= border_arrows_spec(*map, *i, *r));
    }
    res
}

} // verus!
