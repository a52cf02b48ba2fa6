//! Tests of the render cache façade and the file-listing navigation.

use map_render::draw::{render_cached_twice, DrawIntersection};
use map_render::files::{find_next_file, find_prev_file};
use map_render::geometry::{PolyLine, Pt, Ring};
use map_render::model::{
    ControlStopSign, Direction, DrivingSide, Intersection, IntersectionID, Lane, LaneID,
    LaneType, MapModel, Road, RoadID, Turn, TurnID, TurnType,
};
use map_render::roads::DrawRoad;
use map_render::style::{Color, GeomBatch, Style};

fn pt(x: i64, y: i64) -> Pt {
    Pt { x, y }
}

fn pl(pts: &[(i64, i64)]) -> PolyLine {
    PolyLine { pts: pts.iter().map(|&(x, y)| pt(x, y)).collect() }
}

fn square_ring(cx: i64, cy: i64, half: i64) -> Ring {
    Ring {
        pts: vec![
            pt(cx - half, cy - half),
            pt(cx + half, cy - half),
            pt(cx + half, cy + half),
            pt(cx - half, cy + half),
            pt(cx - half, cy - half),
        ],
    }
}

fn style() -> Style {
    let c = |r: u8, g: u8, b: u8| Color { r, g, b, a: 255 };
    Style {
        intersection_surface: c(40, 40, 40),
        intersection_surface_ranked: c(50, 50, 50),
        sidewalk_surface: c(80, 80, 80),
        sidewalk_surface_ranked: c(90, 90, 90),
        driving_surface: c(60, 60, 60),
        driving_surface_ranked: c(70, 70, 70),
        curb: c(100, 100, 100),
        curb_ranked: c(110, 110, 110),
        road_center_line: c(255, 255, 0),
        road_center_line_ranked: c(200, 200, 0),
        general_road_marking: c(255, 255, 255),
        general_road_marking_ranked: c(230, 230, 230),
        private_road: c(0, 100, 200),
        stop_sign: c(200, 0, 0),
        stop_sign_pole: c(120, 60, 0),
        experiment: false,
    }
}

/// A small map with one sidewalk corner at intersection 1.
fn small_map() -> MapModel {
    let mk_lane = |i: usize, parent: usize, c: &[(i64, i64)], src: usize, dst: usize| Lane {
        id: LaneID(i),
        parent: RoadID(parent),
        lane_type: LaneType::Sidewalk,
        lane_center_pts: pl(c),
        width: 2_000,
        src_i: IntersectionID(src),
        dst_i: IntersectionID(dst),
    };
    let mk_road = |i: usize, lane: usize, c: &[(i64, i64)], src: usize, dst: usize| Road {
        id: RoadID(i),
        lanes_ltr: vec![(LaneID(lane), Direction::Fwd, LaneType::Sidewalk)],
        center_pts: pl(c),
        dir_change_pl: pl(c),
        width: 2_000,
        src_i: IntersectionID(src),
        dst_i: IntersectionID(dst),
        orig_way_id: 0,
        rank: 0,
        private: false,
        zorder: 0,
    };
    let mk_inter = |i: usize, cx: i64, cy: i64, roads: Vec<RoadID>| Intersection {
        id: IntersectionID(i),
        polygon: square_ring(cx, cy, 1_000),
        intersection_type: map_render::model::IntersectionType::Plain,
        roads,
        incoming_lanes: vec![],
        outgoing_lanes: vec![],
        rank: 0,
        footway: false,
        private: false,
        orig_node_id: 0,
        zorder: 0,
    };
    let t0 = Turn {
        id: TurnID { parent: IntersectionID(1), src: LaneID(0), dst: LaneID(1) },
        turn_type: TurnType::SharedSidewalkCorner,
        geom: pl(&[(9_000, 0), (9_800, 200), (10_000, 1_000)]),
        other_crosswalk_ids: vec![],
    };
    MapModel {
        roads: vec![
            mk_road(0, 0, &[(0, 0), (9_000, 0)], 0, 1),
            mk_road(1, 1, &[(10_000, 1_000), (10_000, 9_000)], 1, 2),
        ],
        lanes: vec![
            mk_lane(0, 0, &[(0, 0), (9_000, 0)], 0, 1),
            mk_lane(1, 1, &[(10_000, 1_000), (10_000, 9_000)], 1, 2),
        ],
        intersections: vec![
            mk_inter(0, 0, 0, vec![RoadID(0)]),
            mk_inter(1, 10_000, 0, vec![RoadID(0), RoadID(1)]),
            mk_inter(2, 10_000, 10_000, vec![RoadID(1)]),
        ],
        turns: vec![t0],
        stop_signs: (0..3)
            .map(|i| ControlStopSign { id: IntersectionID(i), roads: vec![] })
            .collect(),
        driving_side: DrivingSide::Right,
    }
}

fn batches_equal(a: &GeomBatch, b: &GeomBatch) -> bool {
    a.list == b.list
}

#[test]
fn cache_idempotent_with_call_count() {
    let map = small_map();
    let cs = style();
    let mut d = DrawIntersection::new(&map.intersections[1], &map);
    assert_eq!(d.times_rendered, 0);
    let b1 = d.render_cached(&map, &cs, DrivingSide::Right);
    assert_eq!(d.times_rendered, 1);
    let b2 = d.render_cached(&map, &cs, DrivingSide::Right);
    // Bit-identical geometry, and the second call hit the cache: the
    // computation counter did not move again.
    assert!(batches_equal(&b1, &b2));
    assert_eq!(d.times_rendered, 1);
    assert!(!b1.list.is_empty());
}

#[test]
fn cache_twice_helper() {
    let map = small_map();
    let cs = style();
    let mut d = DrawIntersection::new(&map.intersections[1], &map);
    let (b1, b2) = render_cached_twice(&mut d, &map, &cs, DrivingSide::Right);
    assert!(batches_equal(&b1, &b2));
    assert_eq!(d.times_rendered, 1);
}

#[test]
fn clear_rendering_forces_recompute() {
    let map = small_map();
    let cs = style();
    let mut d = DrawIntersection::new(&map.intersections[1], &map);
    let b1 = d.render_cached(&map, &cs, DrivingSide::Right);
    d.clear_rendering();
    assert_eq!(d.times_rendered, 1);
    let b2 = d.render_cached(&map, &cs, DrivingSide::Right);
    assert_eq!(d.times_rendered, 2);
    assert!(batches_equal(&b1, &b2));
}

#[test]
fn signal_slot_keyed_by_time() {
    let map = small_map();
    let mut d = DrawIntersection::new(&map.intersections[1], &map);
    assert!(d.signal_needs_recompute(5));
    let mut overlay = GeomBatch::new();
    overlay.push(
        Color { r: 0, g: 255, b: 0, a: 255 },
        map.intersections[1].polygon.to_polygon(),
    );
    d.store_signal(5, overlay);
    assert!(!d.signal_needs_recompute(5));
    assert!(d.signal_needs_recompute(6));
    let again = d.cached_signal(5);
    assert_eq!(again.list.len(), 1);
}

#[test]
fn road_cache_idempotent() {
    let map = small_map();
    let cs = style();
    let mut d = DrawRoad::new(&map.roads[0]);
    assert_eq!(d.times_rendered, 0);
    let b1 = d.render_cached(&map, &cs);
    let b2 = d.render_cached(&map, &cs);
    assert!(batches_equal(&b1, &b2));
    assert_eq!(d.times_rendered, 1);
    d.clear_rendering();
    let b3 = d.render_cached(&map, &cs);
    assert_eq!(d.times_rendered, 2);
    assert!(batches_equal(&b1, &b3));
}

#[test]
fn road_center_line_between_opposite_lanes() {
    // Two driving lanes in opposite directions: a dashed center line shows
    // up between them.
    let mut map = small_map();
    map.lanes[0].lane_type = LaneType::Driving;
    map.lanes[1] = Lane {
        id: LaneID(1),
        parent: RoadID(0),
        lane_type: LaneType::Driving,
        lane_center_pts: pl(&[(9_000, 2_000), (0, 2_000)]),
        width: 2_000,
        src_i: IntersectionID(1),
        dst_i: IntersectionID(0),
    };
    map.roads[0].lanes_ltr = vec![
        (LaneID(0), Direction::Fwd, LaneType::Driving),
        (LaneID(1), Direction::Back, LaneType::Driving),
    ];
    map.roads[0].width = 4_000;
    let cs = style();
    let d = DrawRoad::new(&map.roads[0]);
    let batch = d.render(&map, &cs);
    assert!(!batch.list.is_empty());
    for (c, _) in &batch.list {
        assert_eq!(*c, cs.road_center_line);
    }
}

#[test]
fn find_prev_and_next_file() {
    let files: Vec<String> = vec![
        "data/a.bin".to_string(),
        "data/b.bin".to_string(),
        "data/c.bin".to_string(),
    ];
    assert_eq!(find_prev_file(&files, "data/a.bin"), None);
    assert_eq!(find_prev_file(&files, "data/b.bin"), Some("data/a.bin".to_string()));
    assert_eq!(find_prev_file(&files, "data/c.bin"), Some("data/b.bin".to_string()));
    assert_eq!(find_prev_file(&files, "data/zzz.bin"), None);
    assert_eq!(find_next_file(&files, "data/a.bin"), Some("data/b.bin".to_string()));
    assert_eq!(find_next_file(&files, "data/c.bin"), None);
    assert_eq!(find_next_file(&files, "data/zzz.bin"), None);
    let empty: Vec<String> = vec![];
    assert_eq!(find_prev_file(&empty, "x"), None);
    assert_eq!(find_next_file(&empty, "x"), None);
}
