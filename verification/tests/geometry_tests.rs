//! Tests of the geometry primitives: square roots, offsets, slicing,
//! thickening, rings, areas.

use map_render::geometry::{
    dist_sq_e, isqrt, make_octagon, project_away, Dir, Line, Polygon, PolyLine, Pt, Ring,
};

fn pl(pts: Vec<(i64, i64)>) -> PolyLine {
    PolyLine { pts: pts.into_iter().map(|(x, y)| Pt { x, y }).collect() }
}

fn pts_of(p: &Polygon) -> Vec<(i64, i64)> {
    p.pts.iter().map(|q| (q.x, q.y)).collect()
}

#[test]
fn isqrt_exact_values() {
    assert_eq!(isqrt(0), 0);
    assert_eq!(isqrt(1), 1);
    assert_eq!(isqrt(3), 1);
    assert_eq!(isqrt(4), 2);
    assert_eq!(isqrt(99), 9);
    assert_eq!(isqrt(100), 10);
    assert_eq!(isqrt(3_199_999_999_999_999), 56_568_542);
    assert_eq!(isqrt(3_200_000_000_000_000), 56_568_542);
}

#[test]
fn dist_and_length() {
    let a = Pt { x: 0, y: 0 };
    let b = Pt { x: 3000, y: 4000 };
    assert_eq!(dist_sq_e(a, b), 25_000_000);
    let l = Line { p1: a, p2: b };
    assert_eq!(l.length(), 5000);
}

#[test]
fn line_shift_preserves_direction_and_length() {
    let l = Line { p1: Pt { x: 0, y: 0 }, p2: Pt { x: 10_000, y: 0 } };
    let s = l.shift(500);
    // A horizontal line going +x shifts purely in y.
    assert_eq!(s.p1.x, 0);
    assert_eq!(s.p2.x, 10_000);
    assert_eq!(s.p1.y, s.p2.y);
    assert_eq!(s.p1.y.abs(), 500);
    let o = l.shift(-500);
    assert_eq!(o.p1.y, -s.p1.y);
    assert_eq!(s.length(), l.length());
}

#[test]
fn polyline_length_and_slice() {
    let p = pl(vec![(0, 0), (10_000, 0), (10_000, 5_000)]);
    assert_eq!(p.length(), 15_000);
    let s = p.exact_slice(2_000, 12_000);
    // Starts 2 m in, keeps the interior vertex, ends 2 m down the second leg.
    assert_eq!(s.pts.len(), 3);
    assert_eq!((s.pts[0].x, s.pts[0].y), (2_000, 0));
    assert_eq!((s.pts[1].x, s.pts[1].y), (10_000, 0));
    assert_eq!((s.pts[2].x, s.pts[2].y), (10_000, 2_000));
}

#[test]
fn make_polygons_declines_degenerate_width() {
    let p = pl(vec![(0, 0), (10_000, 0)]);
    assert!(p.make_polygons(10).is_none());
    assert!(p.make_polygons(11).is_some());
}

#[test]
fn make_polygons_declines_degenerate_segment() {
    let p = pl(vec![(0, 0), (5, 0), (10_000, 0)]);
    assert!(p.make_polygons(2_000).is_none());
}

#[test]
fn make_polygons_rectangle() {
    let p = pl(vec![(0, 0), (10_000, 0)]);
    let poly = p.make_polygons(2_000).unwrap();
    let pts = pts_of(&poly);
    assert_eq!(pts.len(), 4);
    // Left edge then right edge reversed: a 10 m x 2 m rectangle.
    assert_eq!(poly.area2_e(), 2 * 10_000 * 2_000);
}

#[test]
fn deduping_collapses_repeats() {
    let p = PolyLine::deduping_new(
        vec![
            Pt { x: 0, y: 0 },
            Pt { x: 0, y: 0 },
            Pt { x: 5_000, y: 0 },
            Pt { x: 5_000, y: 0 },
            Pt { x: 9_000, y: 0 },
        ],
    )
    .unwrap();
    assert_eq!(p.pts.len(), 3);
    let all_same = PolyLine::deduping_new(vec![Pt { x: 1, y: 2 }, Pt { x: 1, y: 2 }]);
    assert!(all_same.is_none());
}

#[test]
fn ring_rejects_bowtie_quad() {
    // A self-intersecting quad: the strict ring builder declines.
    let bowtie = vec![
        Pt { x: 0, y: 0 },
        Pt { x: 10_000, y: 10_000 },
        Pt { x: 10_000, y: 0 },
        Pt { x: 0, y: 10_000 },
        Pt { x: 0, y: 0 },
    ];
    assert!(Ring::new(bowtie).is_none());
    let square = vec![
        Pt { x: 0, y: 0 },
        Pt { x: 10_000, y: 0 },
        Pt { x: 10_000, y: 10_000 },
        Pt { x: 0, y: 10_000 },
        Pt { x: 0, y: 0 },
    ];
    assert!(Ring::new(square).is_some());
}

#[test]
fn ring_rejects_open_or_tiny_loops() {
    let open_loop = vec![
        Pt { x: 0, y: 0 },
        Pt { x: 10_000, y: 0 },
        Pt { x: 10_000, y: 10_000 },
        Pt { x: 0, y: 10_000 },
    ];
    assert!(Ring::new(open_loop).is_none());
    let tiny = vec![Pt { x: 0, y: 0 }, Pt { x: 1, y: 0 }, Pt { x: 0, y: 0 }];
    assert!(Ring::new(tiny).is_none());
}

#[test]
fn octagon_has_eight_vertices_around_center() {
    let center = Pt { x: 1_000_000, y: 2_000_000 };
    let facing = Dir { x: 10_000, y: 0 };
    let oct = make_octagon(center, 1_000, facing);
    assert_eq!(oct.pts.len(), 8);
    for p in &oct.pts {
        let dx = p.x - center.x;
        let dy = p.y - center.y;
        let d2 = dx * dx + dy * dy;
        // Every vertex is about one radius away from the center.
        assert!(d2 > 900 * 900, "vertex too close: {}", d2);
        assert!(d2 < 1_100 * 1_100, "vertex too far: {}", d2);
    }
}

#[test]
fn project_away_moves_the_right_distance() {
    let p = Pt { x: 0, y: 0 };
    let east = Dir { x: 10_000, y: 0 };
    let q = project_away(p, 1_500, east);
    assert_eq!((q.x, q.y), (1_500, 0));
    let r = project_away(p, 1_500, Dir { x: -10_000, y: 0 });
    assert_eq!((r.x, r.y), (-1_500, 0));
}

#[test]
fn dashed_lines_counts_dashes() {
    // 10 m path, 2 m dashes with 1 m gaps starting at 0: dashes at 0, 3, 6
    // fit; the one at 9 does not.
    let p = pl(vec![(0, 0), (10_000, 0)]);
    let dashes = p.dashed_lines(250, 2_000, 1_000);
    assert_eq!(dashes.len(), 3);
    // A path shorter than one dash yields a single full-length piece.
    let q = pl(vec![(0, 0), (1_500, 0)]);
    assert_eq!(q.dashed_lines(250, 2_000, 1_000).len(), 1);
}

#[test]
fn make_arrow_has_head() {
    let p = pl(vec![(0, 0), (9_000, 0)]);
    let arrow = p.make_arrow(600).unwrap();
    // Body quad corners plus three head points.
    assert!(arrow.pts.len() >= 7);
    // The tip is the far end of the path.
    assert!(arrow.pts.iter().any(|q| q.x == 9_000 && q.y == 0));
    assert!(p.make_arrow(10).is_none());
}
