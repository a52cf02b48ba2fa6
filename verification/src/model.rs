//! The read-only road-network model the rendering core consumes: roads,
//! lanes, turns, intersections and stop-sign control records, together with
//! the well-formedness conditions the geometry contracts rely on.
//!
//! The model is borrowed, never mutated. Identifiers are indices into the
//! model's own vectors; well-formedness ties every cross-reference to its
//! range and every stored polyline to the map coordinate bounds.

use vstd::prelude::*;
use crate::geometry::{
    clean, pts_in_box, ring_wf, PolyLine, Ring, MAP_BOUND,
};

verus! {

#[derive(Clone, Copy, PartialEq, Eq, Structural, Debug, Hash)]
pub struct LaneID(pub usize);

#[derive(Clone, Copy, PartialEq, Eq, Structural, Debug, Hash)]
pub struct RoadID(pub usize);

#[derive(Clone, Copy, PartialEq, Eq, Structural, Debug, Hash)]
pub struct IntersectionID(pub usize);

/// A turn is identified by its source lane, destination lane, and the
/// intersection it belongs to.
#[derive(Clone, Copy, PartialEq, Eq, Structural, Debug, Hash)]
pub struct TurnID {
    pub parent: IntersectionID,
    pub src: LaneID,
    pub dst: LaneID,
}

/// Lexicographic order on turn identifiers: parent, then source, then
/// destination.
pub open spec fn turn_id_lt(a: TurnID, b: TurnID) -> bool {
    ||| a.parent.0 < b.parent.0
    ||| (a.parent.0 == b.parent.0 && a.src.0 < b.src.0)
    ||| (a.parent.0 == b.parent.0 && a.src.0 == b.src.0 && a.dst.0 < b.dst.0)
}

/// Executable comparison of turn identifiers.
pub fn turn_id_lt_e(a: TurnID, b: TurnID) -> (r: bool)
    ensures
        r == turn_id_lt(a, b),
{
    a.parent.0 < b.parent.0 || (a.parent.0 == b.parent.0 && (a.src.0 < b.src.0 || (a.src.0
        == b.src.0 && a.dst.0 < b.dst.0)))
}

#[derive(Clone, Copy, PartialEq, Eq, Structural, Debug)]
pub enum Direction {
    Fwd,
    Back,
}

/// The global traffic convention: which side of the road traffic drives on.
#[derive(Clone, Copy, PartialEq, Eq, Structural, Debug)]
pub enum DrivingSide {
    Right,
    Left,
}

#[derive(Clone, Copy, PartialEq, Eq, Structural, Debug)]
pub enum IntersectionType {
    StopSign,
    TrafficSignal,
    Border,
    Construction,
    Plain,
}

#[derive(Clone, Copy, PartialEq, Eq, Structural, Debug)]
pub enum LaneType {
    Driving,
    Parking,
    Sidewalk,
    Shoulder,
    Biking,
    Bus,
    SharedLeftTurn,
    Construction,
    LightRail,
}

impl LaneType {
    /// Lane types that carry moving vehicles, for center-line placement.
    pub open spec fn is_for_moving_vehicles_spec(self) -> bool {
        match self {
            LaneType::Driving => true,
            LaneType::Biking => true,
            LaneType::Bus => true,
            LaneType::SharedLeftTurn => true,
            LaneType::LightRail => true,
            LaneType::Parking => false,
            LaneType::Sidewalk => false,
            LaneType::Shoulder => false,
            LaneType::Construction => false,
        }
    }

    pub fn is_for_moving_vehicles(self) -> (r: bool)
        ensures
            r == self.is_for_moving_vehicles_spec(),
    {
        match self {
            LaneType::Driving => true,
            LaneType::Biking => true,
            LaneType::Bus => true,
            LaneType::SharedLeftTurn => true,
            LaneType::LightRail => true,
            LaneType::Parking => false,
            LaneType::Sidewalk => false,
            LaneType::Shoulder => false,
            LaneType::Construction => false,
        }
    }
}

#[derive(Clone, Copy, PartialEq, Eq, Structural, Debug)]
pub enum TurnType {
    Crosswalk,
    SharedSidewalkCorner,
    Straight,
    Right,
    Left,
    UTurn,
}

/// A lane of a road, with its center line and width.
#[derive(Debug)]
pub struct Lane {
    pub id: LaneID,
    pub parent: RoadID,
    pub lane_type: LaneType,
    pub lane_center_pts: PolyLine,
    pub width: i64,
    pub src_i: IntersectionID,
    pub dst_i: IntersectionID,
}

/// Widest lane the model accepts (30 m in mm).
pub const MAX_LANE_WIDTH: i64 = 30_000;

/// Most lanes a road may carry.
pub const MAX_LANES_PER_ROAD: usize = 30;

impl Lane {
    pub open spec fn wf(self, n_roads: int, n_inters: int) -> bool {
        &&& self.lane_center_pts.wf()
        &&& pts_in_box(self.lane_center_pts@, MAP_BOUND as int)
        &&& clean(self.lane_center_pts@)
        &&& 0 < self.width <= MAX_LANE_WIDTH
        &&& self.parent.0 < n_roads
        &&& self.src_i.0 < n_inters
        &&& self.dst_i.0 < n_inters
    }
}

/// A road, with its ordered lanes and center lines.
#[derive(Debug)]
pub struct Road {
    pub id: RoadID,
    pub lanes_ltr: Vec<(LaneID, Direction, LaneType)>,
    pub center_pts: PolyLine,
    /// The centerline where the travel direction changes, used for border
    /// arrows; precomputed by the map model.
    pub dir_change_pl: PolyLine,
    /// Aggregate width of all lanes.
    pub width: i64,
    pub src_i: IntersectionID,
    pub dst_i: IntersectionID,
    /// The original way identifier this road was imported from.
    pub orig_way_id: i64,
    /// Elevation rank, for styling.
    pub rank: u8,
    pub private: bool,
    pub zorder: i64,
}

impl Road {
    pub open spec fn wf(self, n_lanes: int, n_inters: int) -> bool {
        &&& self.center_pts.wf()
        &&& pts_in_box(self.center_pts@, MAP_BOUND as int)
        &&& clean(self.center_pts@)
        &&& self.dir_change_pl.wf()
        &&& pts_in_box(self.dir_change_pl@, MAP_BOUND as int)
        &&& clean(self.dir_change_pl@)
        &&& 0 < self.width <= 1_000_000
        &&& 1 <= self.lanes_ltr@.len() <= MAX_LANES_PER_ROAD
        &&& forall|i: int|
            0 <= i < self.lanes_ltr@.len() ==> (#[trigger] self.lanes_ltr@[i]).0.0 < n_lanes
        &&& self.src_i.0 < n_inters
        &&& self.dst_i.0 < n_inters
    }
}

/// An intersection, with its boundary polygon and connected roads.
#[derive(Debug)]
pub struct Intersection {
    pub id: IntersectionID,
    pub polygon: Ring,
    pub intersection_type: IntersectionType,
    pub roads: Vec<RoadID>,
    pub incoming_lanes: Vec<LaneID>,
    pub outgoing_lanes: Vec<LaneID>,
    /// Elevation rank, for styling.
    pub rank: u8,
    pub footway: bool,
    pub private: bool,
    /// The original node identifier this intersection was imported from.
    pub orig_node_id: i64,
    pub zorder: i64,
}

impl Intersection {
    pub open spec fn wf(self, n_roads: int, n_lanes: int) -> bool {
        &&& ring_wf(self.polygon@)
        &&& pts_in_box(self.polygon@, MAP_BOUND as int)
        &&& 1 <= self.roads@.len() <= 100
        &&& forall|i: int| 0 <= i < self.roads@.len() ==> (#[trigger] self.roads@[i]).0 < n_roads
        &&& forall|i: int|
            0 <= i < self.incoming_lanes@.len() ==> (#[trigger] self.incoming_lanes@[i]).0
                < n_lanes
        &&& forall|i: int|
            0 <= i < self.outgoing_lanes@.len() ==> (#[trigger] self.outgoing_lanes@[i]).0
                < n_lanes
    }
}

/// A turn: a directed connection between two lanes at an intersection.
#[derive(Debug)]
pub struct Turn {
    pub id: TurnID,
    pub turn_type: TurnType,
    pub geom: PolyLine,
    /// For crosswalks: the other turns that share the same physical stripe.
    pub other_crosswalk_ids: Vec<TurnID>,
}

impl Turn {
    pub open spec fn wf(self, n_lanes: int, n_inters: int) -> bool {
        &&& self.geom.wf()
        &&& pts_in_box(self.geom@, MAP_BOUND as int)
        &&& self.id.src.0 < n_lanes
        &&& self.id.dst.0 < n_lanes
        &&& self.id.parent.0 < n_inters
        &&& self.other_crosswalk_ids@.len() <= 8
    }
}

/// Whether one approach road of a stop-controlled intersection must stop,
/// and which of its lanes runs closest to the intersection edge.
#[derive(Clone, Copy, PartialEq, Eq, Structural, Debug)]
pub struct RoadWithStopSign {
    pub rd: RoadID,
    pub must_stop: bool,
    pub lane_closest_to_edge: LaneID,
}

/// The stop-sign control record of one intersection.
#[derive(Debug)]
pub struct ControlStopSign {
    pub id: IntersectionID,
    pub roads: Vec<RoadWithStopSign>,
}

impl ControlStopSign {
    pub open spec fn wf(self, n_lanes: int) -> bool {
        &&& self.roads@.len() <= 100
        &&& forall|i: int|
            0 <= i < self.roads@.len() ==> (#[trigger] self.roads@[i]).lane_closest_to_edge.0
                < n_lanes
    }
}

/// The whole road-network model, borrowed read-only by the rendering core.
#[derive(Debug)]
pub struct MapModel {
    pub roads: Vec<Road>,
    pub lanes: Vec<Lane>,
    pub intersections: Vec<Intersection>,
    pub turns: Vec<Turn>,
    /// One stop-sign control record per intersection.
    pub stop_signs: Vec<ControlStopSign>,
    pub driving_side: DrivingSide,
}

impl MapModel {
    pub open spec fn n_roads(self) -> int {
        self.roads@.len() as int
    }

    pub open spec fn n_lanes(self) -> int {
        self.lanes@.len() as int
    }

    pub open spec fn n_inters(self) -> int {
        self.intersections@.len() as int
    }

    pub open spec fn wf(self) -> bool {
        &&& self.turns@.len() <= 10_000
        &&& forall|i: int|
            0 <= i < self.roads@.len() ==> (#[trigger] self.roads@[i]).wf(
                self.n_lanes(),
                self.n_inters(),
            ) && self.roads@[i].id == RoadID(i as usize)
        &&& forall|i: int|
            0 <= i < self.lanes@.len() ==> (#[trigger] self.lanes@[i]).wf(
                self.n_roads(),
                self.n_inters(),
            ) && self.lanes@[i].id == LaneID(i as usize)
        &&& forall|i: int|
            0 <= i < self.intersections@.len() ==> (#[trigger] self.intersections@[i]).wf(
                self.n_roads(),
                self.n_lanes(),
            ) && self.intersections@[i].id == IntersectionID(i as usize)
        &&& forall|i: int|
            0 <= i < self.turns@.len() ==> (#[trigger] self.turns@[i]).wf(
                self.n_lanes(),
                self.n_inters(),
            )
        &&& self.stop_signs@.len() == self.intersections@.len()
        &&& forall|i: int|
            0 <= i < self.stop_signs@.len() ==> (#[trigger] self.stop_signs@[i]).wf(
                self.n_lanes(),
            )
        &&& forall|i: int|
            0 <= i < self.intersections@.len() && (#[trigger] self.intersections@[i]).intersection_type
                == IntersectionType::Border ==> self.intersections@[i].roads@.len() == 1
    }

    /// Looks a lane up by its identifier.
    pub fn get_l(&self, id: LaneID) -> (r: &Lane)
        requires
            self.wf(),
            id.0 < self.n_lanes(),
        ensures
            r == &self.lanes@[id.0 as int],
            r.wf(self.n_roads(), self.n_inters()),
    {
        &self.lanes[id.0]
    }

    /// Looks a road up by its identifier.
    pub fn get_r(&self, id: RoadID) -> (r: &Road)
        requires
            self.wf(),
            id.0 < self.n_roads(),
        ensures
            r == &self.roads@[id.0 as int],
            r.wf(self.n_lanes(), self.n_inters()),
    {
        &self.roads[id.0]
    }

    /// Looks an intersection up by its identifier.
    pub fn get_i(&self, id: IntersectionID) -> (r: &Intersection)
        requires
            self.wf(),
            id.0 < self.n_inters(),
        ensures
            r == &self.intersections@[id.0 as int],
            r.wf(self.n_roads(), self.n_lanes()),
    {
        &self.intersections[id.0]
    }

    /// The stop-sign control record for an intersection.
    pub fn get_stop_sign(&self, id: IntersectionID) -> (r: &ControlStopSign)
        requires
            self.wf(),
            id.0 < self.n_inters(),
        ensures
            r == &self.stop_signs@[id.0 as int],
            r.wf(self.n_lanes()),
    {
        &self.stop_signs[id.0]
    }
}

} // verus!
