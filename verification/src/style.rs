//! The styling collaborator's surface, reduced to data: colors for road
//! surfaces, curbs, markings and glyphs, plus the batch of colored polygons
//! handed to the presentation layer.

use vstd::prelude::*;
use crate::geometry::{GPt, Polygon};
use crate::model::LaneType;

verus! {

/// An RGBA color, 8 bits per channel.
#[derive(Clone, Copy, PartialEq, Eq, Structural, Debug)]
pub struct Color {
    pub r: u8,
    pub g: u8,
    pub b: u8,
    pub a: u8,
}

impl Color {
    /// The same color with another alpha channel.
    pub fn with_alpha(self, a: u8) -> (c: Color)
        ensures
            c == (Color { a, ..self }),
    {
        Color { a, ..self }
    }
}

/// The color table the rendering core reads: pure lookups, no side effects.
/// Each lookup has a plain variant and a variant for raised/lowered ranks.
#[derive(Clone, Copy, PartialEq, Eq, Structural, Debug)]
pub struct Style {
    pub intersection_surface: Color,
    pub intersection_surface_ranked: Color,
    pub sidewalk_surface: Color,
    pub sidewalk_surface_ranked: Color,
    pub driving_surface: Color,
    pub driving_surface_ranked: Color,
    pub curb: Color,
    pub curb_ranked: Color,
    pub road_center_line: Color,
    pub road_center_line_ranked: Color,
    pub general_road_marking: Color,
    pub general_road_marking_ranked: Color,
    pub private_road: Color,
    pub stop_sign: Color,
    pub stop_sign_pole: Color,
    /// Whether curb lines are drawn at all.
    pub experiment: bool,
}

impl Style {
    /// The surface color for a lane type at an elevation rank: walking
    /// surfaces and vehicle surfaces have their own palettes.
    pub open spec fn zoomed_road_surface_spec(self, lt: LaneType, rank: u8) -> Color {
        match lt {
            LaneType::Sidewalk => if rank == 0 {
                self.sidewalk_surface
            } else {
                self.sidewalk_surface_ranked
            },
            LaneType::Shoulder => if rank == 0 {
                self.sidewalk_surface
            } else {
                self.sidewalk_surface_ranked
            },
            _ => if rank == 0 {
                self.driving_surface
            } else {
                self.driving_surface_ranked
            },
        }
    }

    pub fn zoomed_road_surface(&self, lt: LaneType, rank: u8) -> (c: Color)
        ensures
            c == self.zoomed_road_surface_spec(lt, rank),
    {
        match lt {
            LaneType::Sidewalk => if rank == 0 {
                self.sidewalk_surface
            } else {
                self.sidewalk_surface_ranked
            },
            LaneType::Shoulder => if rank == 0 {
                self.sidewalk_surface
            } else {
                self.sidewalk_surface_ranked
            },
            _ => if rank == 0 {
                self.driving_surface
            } else {
                self.driving_surface_ranked
            },
        }
    }

    /// The surface color of an intersection at an elevation rank.
    pub open spec fn zoomed_intersection_surface_spec(self, rank: u8) -> Color {
        if rank == 0 {
            self.intersection_surface
        } else {
            self.intersection_surface_ranked
        }
    }

    pub fn zoomed_intersection_surface(&self, rank: u8) -> (c: Color)
        ensures
            c == self.zoomed_intersection_surface_spec(rank),
    {
        if rank == 0 {
            self.intersection_surface
        } else {
            self.intersection_surface_ranked
        }
    }

    /// The curb color at an elevation rank.
    pub open spec fn curb_spec(self, rank: u8) -> Color {
        if rank == 0 {
            self.curb
        } else {
            self.curb_ranked
        }
    }

    pub fn curb_color(&self, rank: u8) -> (c: Color)
        ensures
            c == self.curb_spec(rank),
    {
        if rank == 0 {
            self.curb
        } else {
            self.curb_ranked
        }
    }

    /// The general road-marking color at an elevation rank.
    pub open spec fn general_road_marking_spec(self, rank: u8) -> Color {
        if rank == 0 {
            self.general_road_marking
        } else {
            self.general_road_marking_ranked
        }
    }

    pub fn general_road_marking_color(&self, rank: u8) -> (c: Color)
        ensures
            c == self.general_road_marking_spec(rank),
    {
        if rank == 0 {
            self.general_road_marking
        } else {
            self.general_road_marking_ranked
        }
    }

    /// The road center-line color at an elevation rank.
    pub open spec fn road_center_line_spec(self, rank: u8) -> Color {
        if rank == 0 {
            self.road_center_line
        } else {
            self.road_center_line_ranked
        }
    }

    pub fn road_center_line_color(&self, rank: u8) -> (c: Color)
        ensures
            c == self.road_center_line_spec(rank),
    {
        if rank == 0 {
            self.road_center_line
        } else {
            self.road_center_line_ranked
        }
    }
}

/// The fixed eight-band rainbow crosswalk palette.
pub open spec fn rainbow_palette_spec(k: int) -> Color {
    if k == 0 {
        Color { r: 255, g: 255, b: 255, a: 255 }
    } else if k == 1 {
        Color { r: 255, g: 0, b: 0, a: 255 }
    } else if k == 2 {
        Color { r: 255, g: 165, b: 0, a: 255 }
    } else if k == 3 {
        Color { r: 255, g: 255, b: 0, a: 255 }
    } else if k == 4 {
        Color { r: 0, g: 128, b: 0, a: 255 }
    } else if k == 5 {
        Color { r: 0, g: 0, b: 255, a: 255 }
    } else if k == 6 {
        Color { r: 139, g: 0, b: 255, a: 255 }
    } else {
        Color { r: 255, g: 255, b: 255, a: 255 }
    }
}

/// Executable rainbow palette lookup.
pub fn rainbow_palette(k: usize) -> (c: Color)
    requires
        k < 8,
    ensures
        c == rainbow_palette_spec(k as int),
{
    if k == 0 {
        Color { r: 255, g: 255, b: 255, a: 255 }
    } else if k == 1 {
        Color { r: 255, g: 0, b: 0, a: 255 }
    } else if k == 2 {
        Color { r: 255, g: 165, b: 0, a: 255 }
    } else if k == 3 {
        Color { r: 255, g: 255, b: 0, a: 255 }
    } else if k == 4 {
        Color { r: 0, g: 128, b: 0, a: 255 }
    } else if k == 5 {
        Color { r: 0, g: 0, b: 255, a: 255 }
    } else if k == 6 {
        Color { r: 139, g: 0, b: 255, a: 255 }
    } else {
        Color { r: 255, g: 255, b: 255, a: 255 }
    }
}

/// A batch of colored polygons: what one render call hands the
/// presentation layer.
#[derive(Debug)]
pub struct GeomBatch {
    pub list: Vec<(Color, Polygon)>,
}

impl View for GeomBatch {
    type V = Seq<(Color, Seq<GPt>)>;

    open spec fn view(&self) -> Seq<(Color, Seq<GPt>)> {
        Seq::new(self.list@.len(), |i: int| (self.list@[i].0, self.list@[i].1@))
    }
}

/// A run of polygons all tagged with one color.
pub open spec fn tag_all(c: Color, polys: Seq<Seq<GPt>>) -> Seq<(Color, Seq<GPt>)> {
    Seq::new(polys.len(), |i: int| (c, polys[i]))
}

impl GeomBatch {
    /// An empty batch.
    pub fn new() -> (b: GeomBatch)
        ensures
            b@ == Seq::<(Color, Seq<GPt>)>::empty(),
    {
        let b = GeomBatch { list: Vec::new() };
        proof {
            assert(b@ =~= Seq::<(Color, Seq<GPt>)>::empty());
        }
        b
    }

    pub fn len(&self) -> (n: usize)
        ensures
            n == self@.len(),
    {
        self.list.len()
    }

    /// Appends one colored polygon.
    pub fn push(&mut self, c: Color, p: Polygon)
        ensures
            final(self)@ == old(self)@.push((c, p@)),
    {
        self.list.push((c, p));
        proof {
            assert(self@ =~= old(self)@.push((c, p@)));
        }
    }

    /// Appends a run of polygons, all with one color.
    pub fn extend(&mut self, c: Color, polys: Vec<Polygon>)
        ensures
            final(self)@ == old(self)@ + tag_all(c, crate::geometry::polys_view(polys@)),
    {
        let ghost pv = crate::geometry::polys_view(polys@);
        let ghost start = self@;
        let mut rest = polys;
        let n0 = rest.len();
        proof {
            assert(n0 == rest@.len());
            assert(self@ =~= start + tag_all(c, pv.take(0)));
        }
        let mut k: usize = 0;
        while rest.len() > 0
            invariant
                k + rest@.len() == pv.len(),
                k + rest@.len() <= usize::MAX,
                forall|j: int| 0 <= j < rest@.len() ==> (#[trigger] rest@[j])@ == pv[k + j],
                self@ =~= start + tag_all(c, pv.take(k as int)),
            decreases rest@.len(),
        {
            let p = rest.remove(0);
            let ghost before = self@;
            self.list.push((c, p));
            proof {
                assert(p@ == pv[k as int]);
                assert(self@ =~= before.push((c, p@)));
                assert(pv.take(k as int + 1) =~= pv.take(k as int).push(pv[k as int]));
                assert(self@ =~= start + tag_all(c, pv.take(k as int + 1)));
            }
            k = k + 1;
        }
        proof {
            assert(pv.take(pv.len() as int) =~= pv);
        }
    }
}

/// The same batch with every color's alpha channel replaced.
pub open spec fn alpha_all(b: Seq<(Color, Seq<GPt>)>, a: u8) -> Seq<(Color, Seq<GPt>)> {
    Seq::new(b.len(), |i: int| (Color { a, ..b[i].0 }, b[i].1))
}

impl GeomBatch {
    /// An exact copy of the batch.
    pub fn clone_batch(&self) -> (r: GeomBatch)
        ensures
            r@ == self@,
    {
        let mut list: Vec<(Color, Polygon)> = Vec::new();
        let n = self.list.len();
        let mut k: usize = 0;
        while k < n
            invariant
                n == self.list@.len(),
                list@.len() == k,
                k <= n,
                forall|j: int|
                    0 <= j < k ==> (#[trigger] list@[j]).0 == self.list@[j].0 && list@[j].1@
                        == self.list@[j].1@,
            decreases n - k,
        {
            let c = self.list[k].0;
            let p = self.list[k].1.clone_poly();
            list.push((c, p));
            k = k + 1;
        }
        let r = GeomBatch { list };
        proof {
            assert(r@ =~= self@);
        }
        r
    }

    /// Replaces the alpha channel of every color in the batch: used to
    /// fade everything drawn below ground level.
    pub fn change_alpha(&mut self, a: u8)
        ensures
            final(self)@ == alpha_all(old(self)@, a),
    {
        let n = self.list.len();
        let ghost orig = old(self)@;
        let mut list: Vec<(Color, Polygon)> = Vec::new();
        let mut k: usize = 0;
        while k < n
            invariant
                n == self.list@.len(),
                self.list@ == old(self).list@,
                orig == old(self)@,
                orig.len() == n,
                list@.len() == k,
                k <= n,
                forall|j: int|
                    0 <= j < k ==> ((#[trigger] list@[j]).0, list@[j].1@) == alpha_all(orig, a)[j],
            decreases n - k,
        {
            let c = self.list[k].0;
            let p = self.list[k].1.clone_poly();
            proof {
                assert(orig[k as int] == (self.list@[k as int].0, self.list@[k as int].1@));
                assert(alpha_all(orig, a)[k as int] == (
                    Color { a, ..orig[k as int].0 },
                    orig[k as int].1,
                ));
            }
            list.push((Color { r: c.r, g: c.g, b: c.b, a }, p));
            k = k + 1;
        }
        self.list = list;
        proof {
            assert(self@ =~= alpha_all(orig, a));
        }
    }
}

} // verus!
