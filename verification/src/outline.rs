//! Intersection outline extraction: the boundary segments of an
//! intersection polygon that are not coincident with any connected road's
//! edge — the part of the polygon exposed to open space.

use vstd::prelude::*;
use crate::geometry::{
    gdist_sq, in_box, lemma_box_mono, lemma_shift_pl_box, pts_view, shift_pl,
    GPt, PolyLine, Pt, MAP_BOUND, PT_BOUND, WORK_BOUND,
};
use crate::model::{Intersection, MapModel, RoadID};

verus! {

/// Two boundary points match within this tolerance (0.1 m in mm), squared.
pub const EDGE_TOLERANCE_SQ: i64 = 10_000;

/// The pair of points where a road's left and right edge lines meet the
/// intersection: at whichever end of the road touches it.
pub open spec fn road_edge_pair(map: MapModel, i: Intersection, rid: RoadID) -> (GPt, GPt) {
    let road = map.roads@[rid.0 as int];
    let half = road.width as int / 2;
    let left = shift_pl(road.center_pts@, half);
    let right = shift_pl(road.center_pts@, -half);
    if road.src_i == i.id {
        (left[0], right[0])
    } else {
        (left[left.len() - 1], right[right.len() - 1])
    }
}

/// The edge pairs of all roads connected to `i`.
pub open spec fn road_pairs_spec(map: MapModel, i: Intersection) -> Seq<(GPt, GPt)> {
    Seq::new(i.roads@.len(), |j: int| road_edge_pair(map, i, i.roads@[j]))
}

/// Two points coincide within the matching tolerance.
pub open spec fn pts_close(a: GPt, b: GPt) -> bool {
    gdist_sq(a, b) <= EDGE_TOLERANCE_SQ
}

/// A boundary edge matches a road pair in either point order.
pub open spec fn edge_matches(e1: GPt, e2: GPt, pair: (GPt, GPt)) -> bool {
    (pts_close(e1, pair.0) && pts_close(e2, pair.1)) || (pts_close(e1, pair.1) && pts_close(
        e2,
        pair.0,
    ))
}

/// Edge `k` of the ring is covered by some pair.
pub open spec fn edge_covered(ring: Seq<GPt>, pairs: Seq<(GPt, GPt)>, k: int) -> bool {
    exists|j: int| 0 <= j < pairs.len() && edge_matches(ring[k], ring[k + 1], #[trigger] pairs[j])
}

/// The uncovered edges among the first `k` edges of the ring, each as a
/// two-point polyline.
pub open spec fn outline_upto(ring: Seq<GPt>, pairs: Seq<(GPt, GPt)>, k: int) -> Seq<Seq<GPt>>
    decreases k,
{
    if k <= 0 {
        Seq::empty()
    } else {
        outline_upto(ring, pairs, k - 1) + (if edge_covered(ring, pairs, k - 1) {
            Seq::<Seq<GPt>>::empty()
        } else {
            seq![seq![ring[k - 1], ring[k]]]
        })
    }
}

/// All uncovered edges of the ring.
pub open spec fn outline_edges(ring: Seq<GPt>, pairs: Seq<(GPt, GPt)>) -> Seq<Seq<GPt>> {
    outline_upto(ring, pairs, ring.len() - 1)
}

/// When every boundary edge is accounted for by some road pair, the
/// outline is empty.
pub proof fn lemma_outline_all_covered(ring: Seq<GPt>, pairs: Seq<(GPt, GPt)>, k: int)
    requires
        0 <= k <= ring.len() - 1,
        forall|e: int| 0 <= e < ring.len() - 1 ==> edge_covered(ring, pairs, e),
    ensures
        outline_upto(ring, pairs, k) == Seq::<Seq<GPt>>::empty(),
    decreases k,
{
    if k > 0 {
        lemma_outline_all_covered(ring, pairs, k - 1);
        assert(outline_upto(ring, pairs, k) =~= Seq::<Seq<GPt>>::empty());
    }
}

/// When exactly two boundary edges are uncovered — as when one road's
/// contribution is removed from the matching set — the outline is exactly
/// those two edges, in ring order.
pub proof fn lemma_outline_two_uncovered(
    ring: Seq<GPt>,
    pairs: Seq<(GPt, GPt)>,
    k1: int,
    k2: int,
    k: int,
)
    requires
        0 <= k1 < k2 < ring.len() - 1,
        forall|e: int|
            0 <= e < ring.len() - 1 && e != k1 && e != k2 ==> edge_covered(ring, pairs, e),
        !edge_covered(ring, pairs, k1),
        !edge_covered(ring, pairs, k2),
        0 <= k <= ring.len() - 1,
    ensures
        outline_upto(ring, pairs, k) == (if k <= k1 {
            Seq::<Seq<GPt>>::empty()
        } else if k <= k2 {
            seq![seq![ring[k1], ring[k1 + 1]]]
        } else {
            seq![seq![ring[k1], ring[k1 + 1]], seq![ring[k2], ring[k2 + 1]]]
        }),
    decreases k,
{
    if k > 0 {
        lemma_outline_two_uncovered(ring, pairs, k1, k2, k - 1);
        if k - 1 == k1 {
            assert(outline_upto(ring, pairs, k) =~= seq![seq![ring[k1], ring[k1 + 1]]]);
        } else if k - 1 == k2 {
            assert(outline_upto(ring, pairs, k) =~= seq![
                seq![ring[k1], ring[k1 + 1]],
                seq![ring[k2], ring[k2 + 1]],
            ]);
        } else {
            assert(edge_covered(ring, pairs, k - 1));
            assert(outline_upto(ring, pairs, k) =~= outline_upto(ring, pairs, k - 1));
        }
    } else {
        assert(outline_upto(ring, pairs, 0) =~= Seq::<Seq<GPt>>::empty());
    }
}

/// Finds the boundary segments of the intersection polygon not connected
/// to a road: each uncovered ring edge becomes an independent one-segment
/// polyline. Adjacent uncovered edges are not merged.
#[verifier::loop_isolation(false)]
#[verifier::rlimit(60)]
pub fn get_unzoomed_outline(i: &Intersection, map: &MapModel) -> (r: Vec<PolyLine>)
    requires
        map.wf(),
        i.id.0 < map.n_inters(),
        *i == map.intersections@[i.id.0 as int],
    ensures
        Seq::new(r@.len(), |j: int| r@[j]@) == outline_edges(
            i.polygon@,
            road_pairs_spec(*map, *i),
        ),
{
    let ghost ring = i.polygon@;
    let ghost pairs = road_pairs_spec(*map, *i);
    let nr = i.roads.len();
    let mut road_pairs: Vec<(Pt, Pt)> = Vec::new();
    let mut j: usize = 0;
    while j < nr
        invariant
            road_pairs@.len() == j,
            j <= nr,
            nr == i.roads@.len(),
            forall|z: int|
                0 <= z < j ==> ((#[trigger] road_pairs@[z]).0@, road_pairs@[z].1@) == pairs[z],
        decreases nr - j,
    {
        let rid = i.roads[j];
        let road = map.get_r(rid);
        let half = road.width / 2;
        proof {
            lemma_box_mono(road.center_pts@, MAP_BOUND as int, WORK_BOUND as int);
            crate::geometry::lemma_div_t_bound(road.width as int, 2, 500_000);
        }
        let left = match road.center_pts.shift_either(half) {
            Some(pl) => pl,
            None => {
                proof {
                    assert(false);
                }
                return Vec::new();
            },
        };
        let right = match road.center_pts.shift_either(-half) {
            Some(pl) => pl,
            None => {
                proof {
                    assert(false);
                }
                return Vec::new();
            },
        };
        let pair: (Pt, Pt) = if road.src_i == i.id {
            (left.get_pt(0), right.get_pt(0))
        } else {
            let nl = left.len_pts();
            let nrr = right.len_pts();
            (left.get_pt(nl - 1), right.get_pt(nrr - 1))
        };
        road_pairs.push(pair);
        proof {
            assert((pair.0@, pair.1@) == pairs[j as int]);
        }
        j = j + 1;
    }
    let mut out: Vec<PolyLine> = Vec::new();
    let ne = i.polygon.pts.len() - 1;
    let mut k: usize = 0;
    while k < ne
        invariant
            k <= ne,
            ne == ring.len() - 1,
            road_pairs@.len() == pairs.len(),
            forall|z: int|
                0 <= z < pairs.len() ==> ((#[trigger] road_pairs@[z]).0@, road_pairs@[z].1@)
                    == pairs[z],
            Seq::new(out@.len(), |j2: int| out@[j2]@) =~= outline_upto(ring, pairs, k as int),
        decreases ne - k,
    {
        let e1 = i.polygon.pts[k];
        let e2 = i.polygon.pts[k + 1];
        proof {
            assert(in_box(ring[k as int], PT_BOUND as int));
            assert(in_box(ring[k as int + 1], PT_BOUND as int));
        }
        let mut found = false;
        let mut z: usize = 0;
        while z < road_pairs.len()
            invariant
                z <= road_pairs@.len(),
                road_pairs@.len() == pairs.len(),
                forall|y: int|
                    0 <= y < pairs.len() ==> ((#[trigger] road_pairs@[y]).0@, road_pairs@[y].1@)
                        == pairs[y],
                in_box(ring[k as int], PT_BOUND as int),
                in_box(ring[k as int + 1], PT_BOUND as int),
                k < ne,
                found ==> edge_covered(ring, pairs, k as int),
                !found ==> forall|y: int|
                    0 <= y < z ==> !edge_matches(ring[k as int], ring[k as int + 1], #[trigger]
                        pairs[y]),
            decreases road_pairs@.len() - z,
        {
            let (pa, pb) = road_pairs[z];
            proof {
                assert((pa@, pb@) == pairs[z as int]);
                assert(in_box(pairs[z as int].0, PT_BOUND as int) && in_box(
                    pairs[z as int].1,
                    PT_BOUND as int,
                )) by {
                    lemma_road_pair_box(*map, *i, z as int);
                }
            }
            let m1 = crate::geometry::dist_sq_e(e1, pa) <= EDGE_TOLERANCE_SQ
                && crate::geometry::dist_sq_e(e2, pb) <= EDGE_TOLERANCE_SQ;
            let m2 = crate::geometry::dist_sq_e(e1, pb) <= EDGE_TOLERANCE_SQ
                && crate::geometry::dist_sq_e(e2, pa) <= EDGE_TOLERANCE_SQ;
            if m1 || m2 {
                found = true;
                proof {
                    assert(edge_matches(ring[k as int], ring[k as int + 1], pairs[z as int]));
                }
                break ;
            }
            z = z + 1;
        }
        let ghost prev = out@;
        if !found {
            proof {
                assert(!edge_covered(ring, pairs, k as int));
            }
            let mut pts: Vec<Pt> = Vec::new();
            pts.push(e1);
            pts.push(e2);
            proof {
                assert(pts_view(pts@) =~= seq![ring[k as int], ring[k as int + 1]]);
            }
            let pl = PolyLine::new(pts);
            out.push(pl);
        }
        proof {
            assert(Seq::new(out@.len(), |j2: int| out@[j2]@) =~= outline_upto(
                ring,
                pairs,
                k as int + 1,
            ));
        }
        k = k + 1;
    }
    out
}

/// Road edge pairs stay within the global bound.
proof fn lemma_road_pair_box(map: MapModel, i: Intersection, z: int)
    requires
        map.wf(),
        i.id.0 < map.n_inters(),
        i == map.intersections@[i.id.0 as int],
        0 <= z < i.roads@.len(),
    ensures
        in_box(road_pairs_spec(map, i)[z].0, PT_BOUND as int),
        in_box(road_pairs_spec(map, i)[z].1, PT_BOUND as int),
{
    assert(i.wf(map.n_roads(), map.n_lanes()));
    let rid = i.roads@[z];
    assert(rid.0 < map.n_roads());
    let road = map.roads@[rid.0 as int];
    assert(road.wf(map.n_lanes(), map.n_inters()));
    let half = road.width as int / 2;
    crate::geometry::lemma_div_t_bound(road.width as int, 2, 500_000);
    lemma_shift_pl_box(road.center_pts@, half, MAP_BOUND as int);
    lemma_shift_pl_box(road.center_pts@, -half, MAP_BOUND as int);
    let left = shift_pl(road.center_pts@, half);
    let right = shift_pl(road.center_pts@, -half);
    assert(in_box(left[0], MAP_BOUND as int + crate::geometry::abs_i(half)));
    assert(in_box(right[0], MAP_BOUND as int + crate::geometry::abs_i(half)));
    assert(in_box(left[left.len() - 1], MAP_BOUND as int + crate::geometry::abs_i(half)));
    assert(in_box(right[right.len() - 1], MAP_BOUND as int + crate::geometry::abs_i(half)));
}

} // verus!
