//! Tests of the rendering components on small hand-built maps: corners,
//! curbs, border arrows, stop signs, crosswalks, and outlines.

use map_render::arrows::calculate_border_arrows;
use map_render::corners::calculate_corners;
use map_render::crosswalks::{make_crosswalk, rainbow_crossing};
use map_render::curbs::calculate_corner_curbs;
use map_render::geometry::{PolyLine, Pt, Ring};
use map_render::model::{
    ControlStopSign, Direction, DrivingSide, Intersection, IntersectionID, Lane, LaneID,
    LaneType, MapModel, Road, RoadID, RoadWithStopSign, Turn, TurnID, TurnType,
};
use map_render::outline::get_unzoomed_outline;
use map_render::stop_signs::stop_sign_glyph;
use map_render::style::{Color, GeomBatch, Style};

fn pt(x: i64, y: i64) -> Pt {
    Pt { x, y }
}

fn pl(pts: &[(i64, i64)]) -> PolyLine {
    PolyLine { pts: pts.iter().map(|&(x, y)| pt(x, y)).collect() }
}

fn square_ring(cx: i64, cy: i64, half: i64) -> Ring {
    Ring {
        pts: vec![
            pt(cx - half, cy - half),
            pt(cx + half, cy - half),
            pt(cx + half, cy + half),
            pt(cx - half, cy + half),
            pt(cx - half, cy - half),
        ],
    }
}

fn plain_intersection(idx: usize, cx: i64, cy: i64, roads: Vec<RoadID>) -> Intersection {
    Intersection {
        id: IntersectionID(idx),
        polygon: square_ring(cx, cy, 1_000),
        intersection_type: map_render::model::IntersectionType::Plain,
        roads,
        incoming_lanes: vec![],
        outgoing_lanes: vec![],
        rank: 0,
        footway: false,
        private: false,
        orig_node_id: 0,
        zorder: 0,
    }
}

fn simple_road(idx: usize, lane: usize, lt: LaneType, center: &[(i64, i64)], width: i64,
    src: usize, dst: usize) -> Road {
    Road {
        id: RoadID(idx),
        lanes_ltr: vec![(LaneID(lane), Direction::Fwd, lt)],
        center_pts: pl(center),
        dir_change_pl: pl(center),
        width,
        src_i: IntersectionID(src),
        dst_i: IntersectionID(dst),
        orig_way_id: 0,
        rank: 0,
        private: false,
        zorder: 0,
    }
}

fn simple_lane(idx: usize, parent: usize, lt: LaneType, center: &[(i64, i64)], width: i64,
    src: usize, dst: usize) -> Lane {
    Lane {
        id: LaneID(idx),
        parent: RoadID(parent),
        lane_type: lt,
        lane_center_pts: pl(center),
        width,
        src_i: IntersectionID(src),
        dst_i: IntersectionID(dst),
    }
}

fn empty_stop_signs(n: usize) -> Vec<ControlStopSign> {
    (0..n).map(|i| ControlStopSign { id: IntersectionID(i), roads: vec![] }).collect()
}

fn style() -> Style {
    let c = |r: u8, g: u8, b: u8| Color { r, g, b, a: 255 };
    Style {
        intersection_surface: c(40, 40, 40),
        intersection_surface_ranked: c(50, 50, 50),
        sidewalk_surface: c(80, 80, 80),
        sidewalk_surface_ranked: c(90, 90, 90),
        driving_surface: c(60, 60, 60),
        driving_surface_ranked: c(70, 70, 70),
        curb: c(100, 100, 100),
        curb_ranked: c(110, 110, 110),
        road_center_line: c(255, 255, 0),
        road_center_line_ranked: c(200, 200, 0),
        general_road_marking: c(255, 255, 255),
        general_road_marking_ranked: c(230, 230, 230),
        private_road: c(0, 100, 200),
        stop_sign: c(200, 0, 0),
        stop_sign_pole: c(120, 60, 0),
        experiment: true,
    }
}

/// A map with two sidewalk lanes meeting at a corner at intersection 1,
/// and both the turn and its mirror turn present.
fn corner_map(w0: i64, w1: i64) -> MapModel {
    let l0 = simple_lane(0, 0, LaneType::Sidewalk, &[(0, 0), (9_000, 0)], w0, 0, 1);
    let l1 = simple_lane(1, 1, LaneType::Sidewalk, &[(10_000, 1_000), (10_000, 9_000)], w1, 1, 2);
    let r0 = simple_road(0, 0, LaneType::Sidewalk, &[(0, 0), (9_000, 0)], w0, 0, 1);
    let r1 = simple_road(1, 1, LaneType::Sidewalk, &[(10_000, 1_000), (10_000, 9_000)], w1, 1, 2);
    let t0 = Turn {
        id: TurnID { parent: IntersectionID(1), src: LaneID(0), dst: LaneID(1) },
        turn_type: TurnType::SharedSidewalkCorner,
        geom: pl(&[(9_000, 0), (9_800, 200), (10_000, 1_000)]),
        other_crosswalk_ids: vec![],
    };
    let t1 = Turn {
        id: TurnID { parent: IntersectionID(1), src: LaneID(1), dst: LaneID(0) },
        turn_type: TurnType::SharedSidewalkCorner,
        geom: pl(&[(10_000, 1_000), (9_800, 200), (9_000, 0)]),
        other_crosswalk_ids: vec![],
    };
    MapModel {
        roads: vec![r0, r1],
        lanes: vec![l0, l1],
        intersections: vec![
            plain_intersection(0, 0, 0, vec![RoadID(0)]),
            plain_intersection(1, 10_000, 0, vec![RoadID(0), RoadID(1)]),
            plain_intersection(2, 10_000, 10_000, vec![RoadID(1)]),
        ],
        turns: vec![t0, t1],
        stop_signs: empty_stop_signs(3),
        driving_side: DrivingSide::Right,
    }
}

#[test]
fn corner_rendered_exactly_once_per_pair() {
    // The turn and its mirror are both present; only the turn whose source
    // lane terminates at intersection 1 is rendered.
    let map = corner_map(2_000, 2_000);
    let corners = calculate_corners(&map.intersections[1], &map);
    assert_eq!(corners.len(), 1);
}

#[test]
fn corner_unequal_widths_uses_quad() {
    let map = corner_map(2_000, 3_000);
    let corners = calculate_corners(&map.intersections[1], &map);
    assert_eq!(corners.len(), 1);
    // The quad has four corners plus the closing point.
    assert_eq!(corners[0].pts.len(), 5);
}

#[test]
fn corner_footway_draws_nothing() {
    let mut map = corner_map(2_000, 2_000);
    map.intersections[1].footway = true;
    let corners = calculate_corners(&map.intersections[1], &map);
    assert_eq!(corners.len(), 0);
}

#[test]
fn dead_end_corner_area_matches_length_times_width() {
    let mut map = corner_map(2_000, 3_000);
    // Exactly one connected road makes intersection 1 a dead end.
    map.intersections[1].roads = vec![RoadID(0)];
    map.turns[0].geom = pl(&[(2_000, 0), (7_000, 0)]);
    let corners = calculate_corners(&map.intersections[1], &map);
    assert_eq!(corners.len(), 1);
    // Straight 5 m geometry thickened to the smaller width, 2 m: area is
    // exactly length times width here.
    assert_eq!(corners[0].area2_e(), 2 * 5_000 * 2_000);
}

/// A corner configuration lying exactly on the x axis, so the driving-side
/// mirror symmetry shows up as pointwise reflection in y.
fn straight_corner_map() -> MapModel {
    let mut map = corner_map(2_000, 2_000);
    map.lanes[1].lane_center_pts = pl(&[(11_000, 0), (20_000, 0)]);
    map.roads[1].center_pts = pl(&[(11_000, 0), (20_000, 0)]);
    map.roads[1].dir_change_pl = pl(&[(11_000, 0), (20_000, 0)]);
    map.turns[0].geom = pl(&[(9_000, 0), (11_000, 0)]);
    map.turns[1].geom = pl(&[(11_000, 0), (9_000, 0)]);
    map
}

#[test]
fn curbs_flip_with_driving_side() {
    let map = straight_corner_map();
    let left = calculate_corner_curbs(&map.intersections[1], &map, DrivingSide::Left);
    let right = calculate_corner_curbs(&map.intersections[1], &map, DrivingSide::Right);
    assert_eq!(left.len(), 1);
    assert_eq!(right.len(), 1);
    // The whole construction lies on the x axis, so flipping the driving
    // side reflects the curb across it: same x coordinates, negated y
    // coordinates (the thickening walks the mirrored loop the other way
    // round, so compare as sorted collections).
    assert_eq!(left[0].pts.len(), right[0].pts.len());
    let mut xs_l: Vec<i64> = left[0].pts.iter().map(|p| p.x).collect();
    let mut xs_r: Vec<i64> = right[0].pts.iter().map(|p| p.x).collect();
    xs_l.sort();
    xs_r.sort();
    assert_eq!(xs_l, xs_r);
    let mut ys_l: Vec<i64> = left[0].pts.iter().map(|p| p.y).collect();
    let mut ys_r: Vec<i64> = right[0].pts.iter().map(|p| -p.y).collect();
    ys_l.sort();
    ys_r.sort();
    assert_eq!(ys_l, ys_r);
    // And the two sides really sit on opposite sides of the axis.
    assert!(left[0].pts.iter().all(|p| p.y < 0));
    assert!(right[0].pts.iter().all(|p| p.y > 0));
}

/// A border intersection with one connected road carrying one lane in each
/// direction.
fn border_map(outgoing: bool, incoming: bool) -> MapModel {
    let l0 = simple_lane(0, 0, LaneType::Driving, &[(0, 500), (20_000, 500)], 3_000, 0, 1);
    let mut l1 = simple_lane(1, 0, LaneType::Driving, &[(20_000, -500), (0, -500)], 3_000, 1, 0);
    l1.src_i = IntersectionID(1);
    l1.dst_i = IntersectionID(0);
    let mut r0 = simple_road(0, 0, LaneType::Driving, &[(0, 0), (20_000, 0)], 6_000, 0, 1);
    r0.lanes_ltr = vec![
        (LaneID(0), Direction::Fwd, LaneType::Driving),
        (LaneID(1), Direction::Back, LaneType::Driving),
    ];
    let mut i_border = plain_intersection(1, 20_000, 0, vec![RoadID(0)]);
    i_border.intersection_type = map_render::model::IntersectionType::Border;
    if outgoing {
        i_border.outgoing_lanes = vec![LaneID(1)];
    }
    if incoming {
        i_border.incoming_lanes = vec![LaneID(0)];
    }
    MapModel {
        roads: vec![r0],
        lanes: vec![l0, l1],
        intersections: vec![plain_intersection(0, 0, 0, vec![RoadID(0)]), i_border],
        turns: vec![],
        stop_signs: empty_stop_signs(2),
        driving_side: DrivingSide::Right,
    }
}

#[test]
fn border_arrows_counts() {
    for (out, inc, expect) in
        [(false, false, 0), (true, false, 1), (false, true, 1), (true, true, 2)] {
        let map = border_map(out, inc);
        let arrows = calculate_border_arrows(&map.intersections[1], &map.roads[0], &map);
        assert_eq!(arrows.len(), expect, "out={} in={}", out, inc);
    }
}

#[test]
fn stop_sign_no_room_iff_short_lane() {
    for steps in 1..=100u32 {
        let len = 50 * steps as i64;  // 0.05 m to 5.0 m
        let l0 = simple_lane(0, 0, LaneType::Driving, &[(0, 0), (len, 0)], 2_500, 0, 1);
        let r0 = simple_road(0, 0, LaneType::Driving, &[(0, 0), (len, 0)], 2_500, 0, 1);
        let map = MapModel {
            roads: vec![r0],
            lanes: vec![l0],
            intersections: vec![
                plain_intersection(0, 0, 0, vec![RoadID(0)]),
                plain_intersection(1, len, 0, vec![RoadID(0)]),
            ],
            turns: vec![],
            stop_signs: empty_stop_signs(2),
            driving_side: DrivingSide::Right,
        };
        let ss = RoadWithStopSign {
            rd: RoadID(0),
            must_stop: true,
            lane_closest_to_edge: LaneID(0),
        };
        let glyph = stop_sign_glyph(&ss, &map, DrivingSide::Right);
        // No room exactly when the lane, trimmed by 0.1 m, is at or below
        // the 0.01 m tolerance.
        if len <= 110 {
            assert!(glyph.is_none(), "len={}", len);
        } else {
            assert!(glyph.is_some(), "len={}", len);
        }
    }
}

#[test]
fn stop_sign_parts() {
    let map = {
        let l0 = simple_lane(0, 0, LaneType::Driving, &[(0, 0), (5_000, 0)], 2_500, 0, 1);
        let r0 = simple_road(0, 0, LaneType::Driving, &[(0, 0), (5_000, 0)], 2_500, 0, 1);
        MapModel {
            roads: vec![r0],
            lanes: vec![l0],
            intersections: vec![
                plain_intersection(0, 0, 0, vec![RoadID(0)]),
                plain_intersection(1, 5_000, 0, vec![RoadID(0)]),
            ],
            turns: vec![],
            stop_signs: empty_stop_signs(2),
            driving_side: DrivingSide::Right,
        }
    };
    let ss = RoadWithStopSign { rd: RoadID(0), must_stop: true, lane_closest_to_edge: LaneID(0) };
    let (octagon, pole, facing) = stop_sign_glyph(&ss, &map, DrivingSide::Right).unwrap();
    assert_eq!(octagon.pts.len(), 8);
    assert_eq!(pole.pts.len(), 4);
    // The lane runs east; the glyph faces east too.
    assert!(facing.x > 9_000);
    assert_eq!(facing.y, 0);
}

/// A map with one crosswalk turn whose crossing axis is 12 m long.
fn crosswalk_map(node: i64, way: i64) -> MapModel {
    let l0 = simple_lane(0, 0, LaneType::Driving, &[(0, 0), (12_000, 0)], 2_000, 0, 1);
    let mut r0 = simple_road(0, 0, LaneType::Driving, &[(0, 0), (12_000, 0)], 2_000, 0, 1);
    r0.orig_way_id = way;
    let mut i0 = plain_intersection(0, 0, 0, vec![RoadID(0)]);
    i0.orig_node_id = node;
    let t = Turn {
        id: TurnID { parent: IntersectionID(0), src: LaneID(0), dst: LaneID(0) },
        turn_type: TurnType::Crosswalk,
        geom: pl(&[(-500, 0), (0, 0), (9_000, 0)]),
        other_crosswalk_ids: vec![],
    };
    MapModel {
        roads: vec![r0],
        lanes: vec![l0],
        intersections: vec![i0, plain_intersection(1, 12_000, 0, vec![RoadID(0)])],
        turns: vec![t],
        stop_signs: empty_stop_signs(2),
        driving_side: DrivingSide::Right,
    }
}

#[test]
fn crosswalk_stripe_count_and_symmetry() {
    let map = crosswalk_map(1, 1);
    let cs = style();
    let mut batch = GeomBatch::new();
    make_crosswalk(&mut batch, &map.turns[0], &map, &cs);
    // Crossing axis 9 m, boundary 1.5 m each side: available 6 m; spacing
    // 0.9 m gives floor(6.0 / 0.9) = 6 stripe pairs, each a double stripe.
    assert_eq!(batch.list.len(), 12);
    for (c, _) in &batch.list {
        assert_eq!(*c, cs.general_road_marking);
    }
    // Pair positions are symmetric about the axis midpoint: the first and
    // last pairs' lead stripes mirror around x = 4500.
    let mean_x = |poly: &map_render::geometry::Polygon| {
        let s: i64 = poly.pts.iter().map(|p| p.x).sum();
        s / poly.pts.len() as i64
    };
    let first = mean_x(&batch.list[0].1);
    let last = mean_x(&batch.list[10].1);
    assert!((first + last - 9_000).abs() <= 2, "first={} last={}", first, last);
}

#[test]
fn crosswalk_skips_malformed_geometry() {
    let mut map = crosswalk_map(1, 1);
    map.turns[0].geom = pl(&[(0, 0), (9_000, 0)]);
    let cs = style();
    let mut batch = GeomBatch::new();
    // Fewer than three points: squished geometry draws nothing.
    make_crosswalk(&mut batch, &map.turns[0], &map, &cs);
    assert_eq!(batch.list.len(), 0);
}

#[test]
fn rainbow_allow_list_is_exact() {
    assert!(rainbow_crossing(53073255, 428246441));
    assert!(rainbow_crossing(53073255, 332601014));
    assert!(rainbow_crossing(53073254, 6447455));
    assert!(rainbow_crossing(53073254, 607690679));
    assert!(rainbow_crossing(53168934, 6456052));
    assert!(rainbow_crossing(53200834, 6456052));
    assert!(rainbow_crossing(53068795, 607691081));
    assert!(rainbow_crossing(53068795, 65588105));
    assert!(rainbow_crossing(53068794, 65588105));
    // Near misses fall through.
    assert!(!rainbow_crossing(53073255, 428246442));
    assert!(!rainbow_crossing(53073256, 428246441));
    assert!(!rainbow_crossing(53068794, 607691081));
    assert!(!rainbow_crossing(0, 0));
}

#[test]
fn rainbow_crosswalk_renders_eight_bands() {
    let mut map = crosswalk_map(53073255, 428246441);
    map.lanes[0].width = 8_000;
    map.turns[0].geom = pl(&[(0, 0), (30_000, 0)]);
    let cs = style();
    let mut batch = GeomBatch::new();
    make_crosswalk(&mut batch, &map.turns[0], &map, &cs);
    assert_eq!(batch.list.len(), 8);
    // First and last bands are white, the second red.
    assert_eq!(batch.list[0].0, Color { r: 255, g: 255, b: 255, a: 255 });
    assert_eq!(batch.list[1].0, Color { r: 255, g: 0, b: 0, a: 255 });
    assert_eq!(batch.list[7].0, Color { r: 255, g: 255, b: 255, a: 255 });
}

#[test]
fn rainbow_near_miss_uses_standard_stripes() {
    // Same geometry, but the way id misses the allow-list by one: the
    // two-point geometry then falls through to (and fails) the standard
    // path, drawing nothing.
    let mut map = crosswalk_map(53073255, 428246442);
    map.lanes[0].width = 8_000;
    map.turns[0].geom = pl(&[(0, 0), (30_000, 0)]);
    let cs = style();
    let mut batch = GeomBatch::new();
    make_crosswalk(&mut batch, &map.turns[0], &map, &cs);
    assert_eq!(batch.list.len(), 0);
}

/// A square intersection whose four edges each coincide with one
/// connected road's edge pair.
fn four_way_map() -> MapModel {
    let mk_lane = |i: usize, c: &[(i64, i64)]| simple_lane(i, i, LaneType::Driving, c, 2_000, 0, 1);
    let centers: [&[(i64, i64)]; 4] = [
        &[(5_000, 0), (5_000, -10_000)],
        &[(10_000, 5_000), (20_000, 5_000)],
        &[(5_000, 10_000), (5_000, 20_000)],
        &[(0, 5_000), (-10_000, 5_000)],
    ];
    let mut roads = Vec::new();
    let mut lanes = Vec::new();
    for (i, c) in centers.iter().enumerate() {
        let mut r = simple_road(i, i, LaneType::Driving, c, 10_000, 0, 1);
        r.src_i = IntersectionID(0);
        r.dst_i = IntersectionID(1);
        roads.push(r);
        lanes.push(mk_lane(i, c));
    }
    let mut i0 = plain_intersection(
        0,
        5_000,
        5_000,
        vec![RoadID(0), RoadID(1), RoadID(2), RoadID(3)],
    );
    i0.polygon = Ring {
        pts: vec![
            pt(0, 0),
            pt(10_000, 0),
            pt(10_000, 10_000),
            pt(0, 10_000),
            pt(0, 0),
        ],
    };
    MapModel {
        roads,
        lanes,
        intersections: vec![i0, plain_intersection(1, 40_000, 0, vec![RoadID(0)])],
        turns: vec![],
        stop_signs: empty_stop_signs(2),
        driving_side: DrivingSide::Right,
    }
}

#[test]
fn outline_empty_when_all_edges_covered() {
    let map = four_way_map();
    let outline = get_unzoomed_outline(&map.intersections[0], &map);
    assert_eq!(outline.len(), 0);
}

#[test]
fn outline_exposes_missing_road_edge() {
    let mut map = four_way_map();
    // Remove the bottom road's contribution from the matching set.
    map.intersections[0].roads = vec![RoadID(1), RoadID(2), RoadID(3)];
    let outline = get_unzoomed_outline(&map.intersections[0], &map);
    assert_eq!(outline.len(), 1);
    assert_eq!((outline[0].pts[0].x, outline[0].pts[0].y), (0, 0));
    assert_eq!((outline[0].pts[1].x, outline[0].pts[1].y), (10_000, 0));
}

#[test]
fn full_render_includes_border_arrows() {
    let map = border_map(true, true);
    let cs = style();
    let d = map_render::draw::DrawIntersection::new(&map.intersections[1], &map);
    let batch = d.render(&map, &cs, DrivingSide::Right);
    // The intersection surface plus one arrow per populated direction.
    assert_eq!(batch.list.len(), 3);
    assert_eq!(batch.list[0].0, cs.intersection_surface);
    assert_eq!(batch.list[1].0, cs.road_center_line);
    assert_eq!(batch.list[2].0, cs.road_center_line);
}

#[test]
fn full_render_fades_underpass() {
    let mut map = corner_map(2_000, 2_000);
    map.intersections[1].zorder = -1;
    let cs = style();
    let d = map_render::draw::DrawIntersection::new(&map.intersections[1], &map);
    let batch = d.render(&map, &cs, DrivingSide::Right);
    assert!(!batch.list.is_empty());
    // Everything drawn below ground level is faded.
    assert!(batch.list.iter().all(|(c, _)| c.a == 127));
}

#[test]
fn full_render_private_overlay() {
    let mut map = corner_map(2_000, 2_000);
    map.intersections[1].private = true;
    let cs = style();
    let d = map_render::draw::DrawIntersection::new(&map.intersections[1], &map);
    let batch = d.render(&map, &cs, DrivingSide::Right);
    let tint = Color { a: 127, ..cs.private_road };
    assert!(batch.list.iter().any(|(c, _)| *c == tint));
}

#[test]
fn full_render_stop_sign_glyphs() {
    let mut map = corner_map(2_000, 2_000);
    map.intersections[1].intersection_type = map_render::model::IntersectionType::StopSign;
    map.stop_signs[1].roads = vec![RoadWithStopSign {
        rd: RoadID(0),
        must_stop: true,
        lane_closest_to_edge: LaneID(0),
    }];
    let cs = style();
    let d = map_render::draw::DrawIntersection::new(&map.intersections[1], &map);
    let batch = d.render(&map, &cs, DrivingSide::Right);
    assert!(batch.list.iter().any(|(c, _)| *c == cs.stop_sign));
    assert!(batch.list.iter().any(|(c, _)| *c == cs.stop_sign_pole));
}
