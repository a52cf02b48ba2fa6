//! The per-road render object: a center line dashed wherever two adjacent
//! lanes carry moving vehicles in opposite directions, with the same lazy
//! cache slot as intersections.

use vstd::prelude::*;
use crate::geometry::{
    clean, dashed_polys, lemma_box_mono, lemma_shift_pl_box, shift_pl, GPt,
    MAP_BOUND, WORK_BOUND,
};
use crate::model::{MapModel, Road, RoadID, MAX_LANE_WIDTH};
use crate::style::{tag_all, Color, GeomBatch, Style};

verus! {

/// Width of a dashed center line (0.25 m in mm).
pub const CENTER_LINE_WIDTH: i64 = 250;

/// Length of one center-line dash (2.0 m in mm).
pub const CENTER_LINE_DASH: i64 = 2_000;

/// Gap between center-line dashes (1.0 m in mm).
pub const CENTER_LINE_GAP: i64 = 1_000;

/// The halfway blend of two colors, channel by channel.
pub open spec fn lerp_half(c1: Color, c2: Color) -> Color {
    Color {
        r: ((c1.r + c2.r) / 2) as u8,
        g: ((c1.g + c2.g) / 2) as u8,
        b: ((c1.b + c2.b) / 2) as u8,
        a: ((c1.a + c2.a) / 2) as u8,
    }
}

/// Executable halfway blend.
pub fn lerp_half_e(c1: Color, c2: Color) -> (c: Color)
    ensures
        c == lerp_half(c1, c2),
{
    Color {
        r: ((c1.r as u16 + c2.r as u16) / 2) as u8,
        g: ((c1.g as u16 + c2.g as u16) / 2) as u8,
        b: ((c1.b as u16 + c2.b as u16) / 2) as u8,
        a: ((c1.a as u16 + c2.a as u16) / 2) as u8,
    }
}

/// The center-line color of a road: blended toward the private-road tint
/// for private roads.
pub open spec fn center_line_color(r: Road, cs: Style) -> Color {
    if r.private {
        lerp_half(cs.road_center_line_spec(r.rank), cs.private_road)
    } else {
        cs.road_center_line_spec(r.rank)
    }
}

/// Total width of the first `k` lanes of `r`, left to right.
pub open spec fn cum_width(map: MapModel, r: Road, k: int) -> int
    decreases k,
{
    if k <= 0 {
        0
    } else {
        cum_width(map, r, k - 1) + map.lanes@[r.lanes_ltr@[k - 1].0.0 as int].width as int
    }
}

/// The cumulative widths are nonnegative and bounded.
pub proof fn lemma_cum_width_bound(map: MapModel, r: Road, k: int)
    requires
        map.wf(),
        r.id.0 < map.n_roads(),
        r == map.roads@[r.id.0 as int],
        0 <= k <= r.lanes_ltr@.len(),
    ensures
        0 <= cum_width(map, r, k) <= k * MAX_LANE_WIDTH,
    decreases k,
{
    if k > 0 {
        lemma_cum_width_bound(map, r, k - 1);
        assert(r.wf(map.n_lanes(), map.n_inters()));
        assert(r.lanes_ltr@[k - 1].0.0 < map.n_lanes());
        assert(map.lanes@[r.lanes_ltr@[k - 1].0.0 as int].wf(map.n_roads(), map.n_inters()));
        assert(k * MAX_LANE_WIDTH == (k - 1) * MAX_LANE_WIDTH + MAX_LANE_WIDTH)
            by (nonlinear_arith);
    }
}

/// The dashed center line drawn between adjacent lane pair `j` and `j+1`,
/// when the two lanes carry moving vehicles in opposite directions.
pub open spec fn road_pair_piece(map: MapModel, r: Road, cs: Style, j: int) -> Seq<
    (Color, Seq<GPt>),
> {
    let d1 = r.lanes_ltr@[j].1;
    let t1 = r.lanes_ltr@[j].2;
    let d2 = r.lanes_ltr@[j + 1].1;
    let t2 = r.lanes_ltr@[j + 1].2;
    if d1 != d2 && t1.is_for_moving_vehicles_spec() && t2.is_for_moving_vehicles_spec() {
        let ls = shift_pl(r.center_pts@, r.width as int / 2);
        if clean(ls) {
            tag_all(
                center_line_color(r, cs),
                dashed_polys(
                    shift_pl(ls, -cum_width(map, r, j + 1)),
                    CENTER_LINE_WIDTH as int,
                    CENTER_LINE_DASH as int,
                    CENTER_LINE_GAP as int,
                ),
            )
        } else {
            Seq::<(Color, Seq<GPt>)>::empty()
        }
    } else {
        Seq::<(Color, Seq<GPt>)>::empty()
    }
}

/// The center-line pieces of the first `k` adjacent lane pairs.
pub open spec fn road_lines_upto(map: MapModel, r: Road, cs: Style, k: int) -> Seq<
    (Color, Seq<GPt>),
>
    decreases k,
{
    if k <= 0 {
        Seq::empty()
    } else {
        road_lines_upto(map, r, cs, k - 1) + road_pair_piece(map, r, cs, k - 1)
    }
}

/// One full render of a road: a dashed center line wherever two adjacent
/// lanes of opposite direction both carry moving vehicles.
pub open spec fn render_road_spec(map: MapModel, rid: RoadID, cs: Style) -> Seq<
    (Color, Seq<GPt>),
> {
    let r = map.roads@[rid.0 as int];
    road_lines_upto(map, r, cs, r.lanes_ltr@.len() - 1)
}

/// The per-road render object: identity, stacking order, and the lazily
/// filled cache slot.
#[derive(Debug)]
pub struct DrawRoad {
    pub id: RoadID,
    pub zorder: i64,
    /// The geometry slot: `None` until the first render request.
    pub draw: Option<GeomBatch>,
    /// How many times the geometry has actually been computed.
    pub times_rendered: u64,
}

impl DrawRoad {
    /// A fresh render object with an empty cache slot.
    pub fn new(r: &Road) -> (d: DrawRoad)
        ensures
            d.id == r.id,
            d.zorder == r.zorder,
            d.draw is None,
            d.times_rendered == 0,
    {
        DrawRoad { id: r.id, zorder: r.zorder, draw: None, times_rendered: 0 }
    }

    /// Computes the geometry batch of this road.
    #[verifier::loop_isolation(false)]
    #[verifier::rlimit(80)]
    pub fn render(&self, map: &MapModel, cs: &Style) -> (b: GeomBatch)
        requires
            map.wf(),
            self.id.0 < map.n_roads(),
        ensures
            b@ == render_road_spec(*map, self.id, *cs),
    {
        let r = map.get_r(self.id);
        let mut batch = GeomBatch::new();
        let base_color = cs.road_center_line_color(r.rank);
        let color = if r.private {
            lerp_half_e(base_color, cs.private_road)
        } else {
            base_color
        };
        proof {
            lemma_box_mono(r.center_pts@, MAP_BOUND as int, WORK_BOUND as int);
            crate::geometry::lemma_div_t_bound(r.width as int, 2, 500_000);
        }
        let half = r.width / 2;
        let left_side = match r.center_pts.shift_either(half) {
            Some(pl) => pl,
            None => {
                proof {
                    assert(false);
                }
                return batch;
            },
        };
        proof {
            lemma_shift_pl_box(r.center_pts@, half as int, MAP_BOUND as int);
            lemma_box_mono(left_side@, MAP_BOUND as int + 500_000, WORK_BOUND as int);
        }
        let n = r.lanes_ltr.len();
        let mut width: i64 = 0;
        let mut j: usize = 0;
        while j + 1 < n
            invariant
                j <= n - 1,
                n == r.lanes_ltr@.len(),
                width == cum_width(*map, *r, j as int),
                0 <= width <= j * MAX_LANE_WIDTH,
                batch@ =~= road_lines_upto(*map, *r, *cs, j as int),
            decreases n - j,
        {
            proof {
                lemma_cum_width_bound(*map, *r, j as int + 1);
                assert(r.lanes_ltr@[j as int].0.0 < map.n_lanes());
                assert((j + 1) * MAX_LANE_WIDTH == j * MAX_LANE_WIDTH + MAX_LANE_WIDTH)
                    by (nonlinear_arith);
            }
            let (l1, dir1, lt1) = r.lanes_ltr[j];
            let (_l2, dir2, lt2) = r.lanes_ltr[j + 1];
            let lane1 = map.get_l(l1);
            width = width + lane1.width;
            if !matches!((dir1, dir2), (crate::model::Direction::Fwd, crate::model::Direction::Fwd)
                | (crate::model::Direction::Back, crate::model::Direction::Back))
                && lt1.is_for_moving_vehicles() && lt2.is_for_moving_vehicles() {
                match left_side.shift_either(-width) {
                    Some(pl) => {
                        proof {
                            lemma_shift_pl_box(
                                left_side@,
                                -(width as int),
                                MAP_BOUND as int + 500_000,
                            );
                            lemma_box_mono(
                                pl@,
                                MAP_BOUND as int + 500_000 + 900_000,
                                WORK_BOUND as int,
                            );
                        }
                        let dashes = pl.dashed_lines(
                            CENTER_LINE_WIDTH,
                            CENTER_LINE_DASH,
                            CENTER_LINE_GAP,
                        );
                        batch.extend(color, dashes);
                    },
                    None => {},
                }
            }
            proof {
                assert(batch@ =~= road_lines_upto(*map, *r, *cs, j as int + 1));
            }
            j = j + 1;
        }
        proof {
            assert(batch@ =~= render_road_spec(*map, self.id, *cs));
        }
        batch
    }

    /// Serves the road's geometry from the cache slot, computing and
    /// storing it only when the slot is empty; a cache hit leaves the
    /// object untouched.
    pub fn render_cached(&mut self, map: &MapModel, cs: &Style) -> (b: GeomBatch)
        requires
            map.wf(),
            old(self).id.0 < map.n_roads(),
        ensures
            final(self).id == old(self).id,
            final(self).zorder == old(self).zorder,
            old(self).draw is Some ==> *final(self) == *old(self) && b@ == old(
                self,
            ).draw->Some_0@,
            old(self).draw is None ==> {
                &&& b@ == render_road_spec(*map, old(self).id, *cs)
                &&& final(self).draw matches Some(kept) && kept@ == b@
                &&& final(self).times_rendered as int == (if old(self).times_rendered
                    < u64::MAX {
                    old(self).times_rendered as int + 1
                } else {
                    old(self).times_rendered as int
                })
            },
    {
        match &self.draw {
            Some(batch) => batch.clone_batch(),
            None => {
                let b = self.render(map, cs);
                let copy = b.clone_batch();
                self.draw = Some(b);
                if self.times_rendered < u64::MAX {
                    self.times_rendered = self.times_rendered + 1;
                }
                copy
            },
        }
    }

    /// Forcibly empties the cache slot after a map edit.
    pub fn clear_rendering(&mut self)
        ensures
            final(self).draw is None,
            final(self).id == old(self).id,
            final(self).zorder == old(self).zorder,
            final(self).times_rendered == old(self).times_rendered,
    {
        self.draw = None;
    }
}

/// Cache idempotence for roads: two consecutive render calls with no
/// intervening edit return identical geometry, and the second is a cache
/// hit.
pub fn road_rendered_twice(d: &mut DrawRoad, map: &MapModel, cs: &Style) -> (r: (GeomBatch,
    GeomBatch))
    requires
        map.wf(),
        old(d).id.0 < map.n_roads(),
    ensures
        r.0@ == r.1@,
        final(d).times_rendered <= old(d).times_rendered + 1,
{
    let b1 = d.render_cached(map, cs);
    let b2 = d.render_cached(map, cs);
    (b1, b2)
}

} // verus!
