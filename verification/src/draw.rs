//! The cached render façade: per-intersection and per-road slots holding a
//! previously computed batch, filled lazily on first request, emptied by an
//! explicit invalidation, plus a time-keyed slot for the traffic-signal
//! overlay that is recomputed only when the simulation clock advances.

use vstd::prelude::*;
use crate::geometry::{Dir, GPt, Polygon, PolyLine};
use crate::model::{
    DrivingSide, Intersection, IntersectionID, LaneType, MapModel, RoadWithStopSign, Turn,
    TurnType, turn_id_lt, turn_id_lt_e,
};
use crate::style::{alpha_all, tag_all, Color, GeomBatch, Style};
use crate::corners::{calculate_corners, corners_spec};
use crate::curbs::{calculate_corner_curbs, curbs_spec};
use crate::arrows::{border_arrows_spec, calculate_border_arrows};
use crate::crosswalks::{crosswalk_batch_spec, make_crosswalk};
use crate::stop_signs::{stop_sign_glyph, stop_sign_spec};
use crate::outline::{get_unzoomed_outline, outline_edges, road_pairs_spec};

verus! {

/// A crosswalk turn is the rendering owner of its physical stripe exactly
/// when no sibling crosswalk turn has a smaller identifier.
pub open spec fn has_smaller_sibling(t: Turn) -> bool {
    exists|j: int|
        0 <= j < t.other_crosswalk_ids@.len() && turn_id_lt(
            #[trigger] t.other_crosswalk_ids@[j],
            t.id,
        )
}

/// The crosswalk batches of the first `k` turns owned at intersection `i`.
pub open spec fn crosswalks_upto(map: MapModel, i: Intersection, cs: Style, k: int) -> Seq<
    (Color, Seq<GPt>),
>
    decreases k,
{
    if k <= 0 {
        Seq::empty()
    } else {
        crosswalks_upto(map, i, cs, k - 1) + (if map.turns@[k - 1].id.parent == i.id
            && map.turns@[k - 1].turn_type == TurnType::Crosswalk && !has_smaller_sibling(
            map.turns@[k - 1],
        ) {
            crosswalk_batch_spec(map, map.turns@[k - 1], cs)
        } else {
            Seq::<(Color, Seq<GPt>)>::empty()
        })
    }
}

/// All crosswalk markings of intersection `i`.
pub open spec fn crosswalks_spec(map: MapModel, i: Intersection, cs: Style) -> Seq<
    (Color, Seq<GPt>),
> {
    crosswalks_upto(map, i, cs, map.turns@.len() as int)
}

/// The stop-sign glyphs of the first `k` approaches of `i`'s control
/// record: octagon then pole, for each approach that must stop and has
/// room.
pub open spec fn stop_signs_upto(map: MapModel, i: Intersection, side: DrivingSide, cs: Style,
    k: int) -> Seq<(Color, Seq<GPt>)>
    decreases k,
{
    let roads = map.stop_signs@[i.id.0 as int].roads@;
    if k <= 0 {
        Seq::empty()
    } else {
        stop_signs_upto(map, i, side, cs, k - 1) + (if roads[k - 1].must_stop {
            match stop_sign_spec(map, roads[k - 1], side) {
                Some(glyph) => seq![(cs.stop_sign, glyph.0), (cs.stop_sign_pole, glyph.1)],
                None => Seq::<(Color, Seq<GPt>)>::empty(),
            }
        } else {
            Seq::<(Color, Seq<GPt>)>::empty()
        })
    }
}

/// All stop-sign glyphs of intersection `i`.
pub open spec fn stop_signs_spec_all(map: MapModel, i: Intersection, side: DrivingSide,
    cs: Style) -> Seq<(Color, Seq<GPt>)> {
    stop_signs_upto(map, i, side, cs, map.stop_signs@[i.id.0 as int].roads@.len() as int)
}

/// One full render of an intersection: surface, sidewalk corners, curbs
/// when enabled, crosswalks, a private-road overlay, and the
/// classification-specific geometry; everything faded when drawn below
/// ground level.
pub open spec fn render_intersection_spec(map: MapModel, iid: IntersectionID, cs: Style,
    side: DrivingSide) -> Seq<(Color, Seq<GPt>)> {
    let i = map.intersections@[iid.0 as int];
    let surface = if i.footway {
        cs.zoomed_road_surface_spec(LaneType::Sidewalk, i.rank)
    } else {
        cs.zoomed_intersection_surface_spec(i.rank)
    };
    let base = seq![(surface, i.polygon@)] + tag_all(
        cs.zoomed_road_surface_spec(LaneType::Sidewalk, i.rank),
        corners_spec(map, i),
    ) + (if cs.experiment {
        tag_all(cs.curb_spec(i.rank), curbs_spec(map, i, side))
    } else {
        Seq::<(Color, Seq<GPt>)>::empty()
    }) + crosswalks_spec(map, i, cs) + (if i.private {
        seq![((Color { a: 127, ..cs.private_road }), i.polygon@)]
    } else {
        Seq::<(Color, Seq<GPt>)>::empty()
    }) + (match i.intersection_type {
        crate::model::IntersectionType::Border => tag_all(
            cs.road_center_line_spec(map.roads@[i.roads@[0].0 as int].rank),
            border_arrows_spec(map, i, map.roads@[i.roads@[0].0 as int]),
        ),
        crate::model::IntersectionType::StopSign => stop_signs_spec_all(map, i, side, cs),
        _ => Seq::<(Color, Seq<GPt>)>::empty(),
    });
    if i.zorder < 0 {
        alpha_all(base, 127)
    } else {
        base
    }
}

/// Appends the crosswalk markings of every owned crosswalk turn at `i`.
#[verifier::loop_isolation(false)]
fn push_crosswalks(batch: &mut GeomBatch, i: &Intersection, map: &MapModel, cs: &Style)
    requires
        map.wf(),
        i.id.0 < map.n_inters(),
        *i == map.intersections@[i.id.0 as int],
    ensures
        final(batch)@ == old(batch)@ + crosswalks_spec(*map, *i, *cs),
{
    let ghost start = batch@;
    let n = map.turns.len();
    let mut k: usize = 0;
    while k < n
        invariant
            k <= n,
            batch@ =~= start + crosswalks_upto(*map, *i, *cs, k as int),
        decreases n - k,
    {
        let t = &map.turns[k];
        proof {
            assert(map.turns@[k as int].wf(map.n_lanes(), map.n_inters()));
        }
        if t.id.parent == i.id && t.turn_type == TurnType::Crosswalk {
            let mut smaller = false;
            let ns = t.other_crosswalk_ids.len();
            let mut j: usize = 0;
            while j < ns
                invariant
                    j <= ns,
                    ns == t.other_crosswalk_ids@.len(),
                    smaller ==> has_smaller_sibling(map.turns@[k as int]),
                    !smaller ==> forall|z: int|
                        0 <= z < j ==> !turn_id_lt(
                            #[trigger] t.other_crosswalk_ids@[z],
                            t.id,
                        ),
                decreases ns - j,
            {
                if turn_id_lt_e(t.other_crosswalk_ids[j], t.id) {
                    smaller = true;
                    break ;
                }
                j = j + 1;
            }
            if !smaller {
                make_crosswalk(batch, t, map, cs);
            }
        }
        proof {
            assert(batch@ =~= start + crosswalks_upto(*map, *i, *cs, k as int + 1));
        }
        k = k + 1;
    }
}

/// Appends the stop-sign glyphs of every must-stop approach at `i`.
#[verifier::loop_isolation(false)]
fn push_stop_signs(batch: &mut GeomBatch, i: &Intersection, map: &MapModel, side: DrivingSide,
    cs: &Style)
    requires
        map.wf(),
        i.id.0 < map.n_inters(),
        *i == map.intersections@[i.id.0 as int],
    ensures
        final(batch)@ == old(batch)@ + stop_signs_spec_all(*map, *i, side, *cs),
{
    let ghost start = batch@;
    let control = map.get_stop_sign(i.id);
    let n = control.roads.len();
    let mut k: usize = 0;
    while k < n
        invariant
            k <= n,
            n == map.stop_signs@[i.id.0 as int].roads@.len(),
            batch@ =~= start + stop_signs_upto(*map, *i, side, *cs, k as int),
        decreases n - k,
    {
        let ss = control.roads[k];
        proof {
            assert(map.stop_signs@[i.id.0 as int].wf(map.n_lanes()));
        }
        if ss.must_stop {
            match stop_sign_glyph(&ss, map, side) {
                Some(glyph) => {
                    let (octagon, pole, _angle) = glyph;
                    batch.push(cs.stop_sign, octagon);
                    batch.push(cs.stop_sign_pole, pole);
                },
                None => {},
            }
        }
        proof {
            assert(batch@ =~= start + stop_signs_upto(*map, *i, side, *cs, k as int + 1));
        }
        k = k + 1;
    }
}

/// The per-intersection render object: identity, stacking order, and the
/// lazily filled cache slots.
#[derive(Debug)]
pub struct DrawIntersection {
    pub id: IntersectionID,
    pub zorder: i64,
    /// The default-geometry slot: `None` until the first render request.
    pub draw_default: Option<GeomBatch>,
    /// The traffic-signal overlay slot, keyed by simulation time.
    pub draw_traffic_signal: Option<(u64, GeomBatch)>,
    /// How many times the full geometry has actually been computed: the
    /// instrumentation that makes cache hits observable.
    pub times_rendered: u64,
}

impl DrawIntersection {
    /// A fresh render object with empty cache slots.
    pub fn new(i: &Intersection, map: &MapModel) -> (d: DrawIntersection)
        ensures
            d.id == i.id,
            d.zorder == i.zorder,
            d.draw_default is None,
            d.draw_traffic_signal is None,
            d.times_rendered == 0,
    {
        DrawIntersection {
            id: i.id,
            zorder: i.zorder,
            draw_default: None,
            draw_traffic_signal: None,
            times_rendered: 0,
        }
    }

    /// Computes the full geometry batch of this intersection.
    #[verifier::loop_isolation(false)]
    #[verifier::rlimit(90)]
    pub fn render(&self, map: &MapModel, cs: &Style, side: DrivingSide) -> (b: GeomBatch)
        requires
            map.wf(),
            self.id.0 < map.n_inters(),
        ensures
            b@ == render_intersection_spec(*map, self.id, *cs, side),
    {
        let i = map.get_i(self.id);
        let mut batch = GeomBatch::new();
        let rank = i.rank;
        // Order matters: main polygon first, then sidewalk corners.
        let surface = if i.footway {
            cs.zoomed_road_surface(LaneType::Sidewalk, rank)
        } else {
            cs.zoomed_intersection_surface(rank)
        };
        batch.push(surface, i.polygon.to_polygon());
        let ghost s1 = batch@;
        batch.extend(cs.zoomed_road_surface(LaneType::Sidewalk, rank), calculate_corners(i, map));
        let ghost s2 = batch@;
        if cs.experiment {
            batch.extend(cs.curb_color(rank), calculate_corner_curbs(i, map, side));
        }
        let ghost s3 = batch@;
        proof {
            assert(s3 =~= s2 + (if cs.experiment {
                tag_all(cs.curb_spec(i.rank), curbs_spec(*map, *i, side))
            } else {
                Seq::<(Color, Seq<GPt>)>::empty()
            }));
        }
        push_crosswalks(&mut batch, i, map, cs);
        let ghost s4 = batch@;
        if i.private {
            batch.push(cs.private_road.with_alpha(127), i.polygon.to_polygon());
        }
        let ghost s5 = batch@;
        proof {
            assert(s5 =~= s4 + (if i.private {
                seq![((Color { a: 127, ..cs.private_road }), i.polygon@)]
            } else {
                Seq::<(Color, Seq<GPt>)>::empty()
            }));
        }
        match i.intersection_type {
            crate::model::IntersectionType::Border => {
                let r = map.get_r(i.roads[0]);
                batch.extend(
                    cs.road_center_line_color(r.rank),
                    calculate_border_arrows(i, r, map),
                );
            },
            crate::model::IntersectionType::StopSign => {
                push_stop_signs(&mut batch, i, map, side, cs);
            },
            _ => {},
        }
        let ghost base = batch@;
        proof {
            assert(base =~= s5 + (match i.intersection_type {
                crate::model::IntersectionType::Border => tag_all(
                    cs.road_center_line_spec(map.roads@[i.roads@[0].0 as int].rank),
                    border_arrows_spec(*map, *i, map.roads@[i.roads@[0].0 as int]),
                ),
                crate::model::IntersectionType::StopSign => stop_signs_spec_all(
                    *map,
                    *i,
                    side,
                    *cs,
                ),
                _ => Seq::<(Color, Seq<GPt>)>::empty(),
            }));
        }
        if i.zorder < 0 {
            batch.change_alpha(127);
        }
        proof {
            assert(batch@ =~= render_intersection_spec(*map, self.id, *cs, side));
        }
        batch
    }

    /// Serves the default geometry from the cache slot, computing and
    /// storing it only when the slot is empty. A request served from the
    /// cache leaves the object — including the computation counter —
    /// untouched and returns the stored geometry unchanged.
    pub fn render_cached(&mut self, map: &MapModel, cs: &Style, side: DrivingSide) -> (b:
        GeomBatch)
        requires
            map.wf(),
            old(self).id.0 < map.n_inters(),
        ensures
            final(self).id == old(self).id,
            final(self).zorder == old(self).zorder,
            final(self).draw_traffic_signal == old(self).draw_traffic_signal,
            old(self).draw_default is Some ==> *final(self) == *old(self) && b@ == old(
                self,
            ).draw_default->Some_0@,
            old(self).draw_default is None ==> {
                &&& b@ == render_intersection_spec(*map, old(self).id, *cs, side)
                &&& final(self).draw_default matches Some(kept) && kept@ == b@
                &&& final(self).times_rendered as int == (if old(self).times_rendered
                    < u64::MAX {
                    old(self).times_rendered as int + 1
                } else {
                    old(self).times_rendered as int
                })
            },
    {
        match &self.draw_default {
            Some(batch) => batch.clone_batch(),
            None => {
                let b = self.render(map, cs, side);
                let copy = b.clone_batch();
                self.draw_default = Some(b);
                if self.times_rendered < u64::MAX {
                    self.times_rendered = self.times_rendered + 1;
                }
                copy
            },
        }
    }

    /// Forcibly empties the default-geometry slot: invoked externally
    /// after a map edit.
    pub fn clear_rendering(&mut self)
        ensures
            final(self).draw_default is None,
            final(self).id == old(self).id,
            final(self).zorder == old(self).zorder,
            final(self).draw_traffic_signal == old(self).draw_traffic_signal,
            final(self).times_rendered == old(self).times_rendered,
    {
        self.draw_default = None;
    }

    /// Whether the traffic-signal overlay must be recomputed for the
    /// simulation time `now`: exactly when the slot is empty or keyed by a
    /// different time.
    pub fn signal_needs_recompute(&self, now: u64) -> (r: bool)
        ensures
            r == (self.draw_traffic_signal is None || self.draw_traffic_signal->Some_0.0 != now),
    {
        match &self.draw_traffic_signal {
            None => true,
            Some(slot) => slot.0 != now,
        }
    }

    /// Stores a freshly computed signal overlay under its simulation time.
    pub fn store_signal(&mut self, now: u64, overlay: GeomBatch)
        ensures
            final(self).draw_traffic_signal matches Some(slot) && slot.0 == now && slot.1@
                == overlay@,
            final(self).id == old(self).id,
            final(self).zorder == old(self).zorder,
            final(self).draw_default == old(self).draw_default,
            final(self).times_rendered == old(self).times_rendered,
    {
        self.draw_traffic_signal = Some((now, overlay));
    }

    /// The stored signal overlay for the time `now`: reused verbatim.
    pub fn cached_signal(&self, now: u64) -> (b: GeomBatch)
        requires
            self.draw_traffic_signal is Some,
            self.draw_traffic_signal->Some_0.0 == now,
        ensures
            b@ == self.draw_traffic_signal->Some_0.1@,
    {
        match &self.draw_traffic_signal {
            Some(slot) => slot.1.clone_batch(),
            None => {
                proof {
                    assert(false);
                }
                GeomBatch::new()
            },
        }
    }

    /// The stop-sign glyph query, placed on the render object for the
    /// interactive editor; identical to `stop_sign_glyph`.
    pub fn stop_sign_geom(ss: &RoadWithStopSign, map: &MapModel, side: DrivingSide) -> (r:
        Option<(Polygon, Polygon, Dir)>)
        requires
            map.wf(),
            ss.lane_closest_to_edge.0 < map.n_lanes(),
        ensures
            r is Some <==> stop_sign_spec(*map, *ss, side) is Some,
            r is Some ==> {
                let glyph = stop_sign_spec(*map, *ss, side)->Some_0;
                r->Some_0.0@ == glyph.0 && r->Some_0.1@ == glyph.1 && r->Some_0.2@ == glyph.2
            },
    {
        stop_sign_glyph(ss, map, side)
    }

    /// The outline query, placed on the render object; identical to
    /// `get_unzoomed_outline`.
    pub fn get_unzoomed_outline(i: &Intersection, map: &MapModel) -> (r: Vec<PolyLine>)
        requires
            map.wf(),
            i.id.0 < map.n_inters(),
            *i == map.intersections@[i.id.0 as int],
        ensures
            Seq::new(r@.len(), |j: int| r@[j]@) == outline_edges(
                i.polygon@,
                road_pairs_spec(*map, *i),
            ),
    {
        get_unzoomed_outline(i, map)
    }
}

/// Cache idempotence, demonstrated end to end: two consecutive render
/// calls with no intervening edit return identical geometry, and the
/// second call is a cache hit — the computation counter does not move
/// again.
pub fn render_cached_twice(d: &mut DrawIntersection, map: &MapModel, cs: &Style,
    side: DrivingSide) -> (r: (GeomBatch, GeomBatch))
    requires
        map.wf(),
        old(d).id.0 < map.n_inters(),
    ensures
        r.0@ == r.1@,
        final(d).times_rendered <= old(d).times_rendered + 1,
{
    let b1 = d.render_cached(map, cs, side);
    let b2 = d.render_cached(map, cs, side);
    (b1, b2)
}

} // verus!
