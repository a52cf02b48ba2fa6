//! Geometry primitives over integer millimetre coordinates: points, directed
//! line segments, polylines, rings and polygons, together with the offset,
//! slicing and thickening operations the rendering core builds on.
//!
//! Every operation is deterministic integer arithmetic. Square roots are
//! floor square roots; divisions truncate toward zero. Contracts speak of the
//! mathematical views of the types: a point's view is a pair of unbounded
//! integers, a polyline's view a sequence of them.

use vstd::prelude::*;
use vstd::arithmetic::div_mod::{lemma_fundamental_div_mod, lemma_mod_bound};

verus! {

/// Distances at or below this tolerance (in mm) count as degenerate.
pub const EPSILON_MM: i64 = 10;
/// `EPSILON_MM` squared, for comparisons against squared distances.
pub const EPSILON_SQ: i64 = 100;
/// Coordinates of map input geometry stay within this bound (10 km in mm).
pub const MAP_BOUND: i64 = 10_000_000;
/// Every point this library produces stays strictly within this bound.
pub const PT_BOUND: i64 = 20_000_000;
/// Bound on the coordinates an operation accepts, leaving room for offsets.
pub const WORK_BOUND: i64 = 18_000_000;
/// Largest offset distance an operation accepts (1 km in mm).
pub const MAX_SHIFT: i64 = 1_000_000;
/// Largest projection distance an operation accepts (20 m in mm).
pub const MAX_PROJECT: i64 = 20_000;
/// Scale of the components of a unit direction vector.
pub const DIR_UNIT: i64 = 10_000;
/// Most points a polyline may hold.
pub const MAX_PTS: usize = 1000;

/// A point in the plane, in millimetres.
#[derive(Clone, Copy, PartialEq, Eq, Structural, Debug)]
pub struct Pt {
    pub x: i64,
    pub y: i64,
}

/// The mathematical view of a point (or of a direction vector): a pair of
/// unbounded integers.
pub struct GPt {
    pub x: int,
    pub y: int,
}

impl View for Pt {
    type V = GPt;

    open spec fn view(&self) -> GPt {
        GPt { x: self.x as int, y: self.y as int }
    }
}

/// `p` lies within the box `[-b, b] x [-b, b]`.
pub open spec fn in_box(p: GPt, b: int) -> bool {
    -b <= p.x <= b && -b <= p.y <= b
}

impl Pt {
    pub open spec fn wf(self) -> bool {
        in_box(self@, PT_BOUND as int)
    }
}

/// Truncating division: rounds toward zero, like Rust's `/` on integers.
pub open spec fn div_t(a: int, b: int) -> int
    recommends
        b > 0,
{
    if a >= 0 {
        a / b
    } else {
        -((-a) / b)
    }
}

/// Truncating division is an odd function of the dividend.
pub proof fn lemma_div_t_neg(a: int, b: int)
    requires
        b > 0,
    ensures
        div_t(-a, b) == -div_t(a, b),
{
}

/// `|div_t(a, b)| <= c` whenever `|a| <= c * b`.
pub proof fn lemma_div_t_bound(a: int, b: int, c: int)
    requires
        b > 0,
        c >= 0,
        -(c * b) <= a <= c * b,
    ensures
        -c <= div_t(a, b) <= c,
{
    if a >= 0 {
        lemma_fundamental_div_mod(a, b);
        lemma_mod_bound(a, b);
        let q = a / b;
        let r = a % b;
        assert(0 <= q <= c) by (nonlinear_arith)
            requires
                a == b * q + r,
                0 <= r < b,
                0 <= a <= c * b,
                b > 0,
                c >= 0,
        ;
    } else {
        lemma_fundamental_div_mod(-a, b);
        lemma_mod_bound(-a, b);
        let q = (-a) / b;
        let r = (-a) % b;
        assert(0 <= q <= c) by (nonlinear_arith)
            requires
                -a == b * q + r,
                0 <= r < b,
                0 < -a <= c * b,
                b > 0,
                c >= 0,
        ;
    }
}

/// Truncating division preserves the sign of the dividend.
pub proof fn lemma_div_t_sign(a: int, b: int)
    requires
        b > 0,
    ensures
        a >= 0 ==> div_t(a, b) >= 0,
        a <= 0 ==> div_t(a, b) <= 0,
{
    if a >= 0 {
        lemma_fundamental_div_mod(a, b);
        lemma_mod_bound(a, b);
        assert(a / b >= 0) by (nonlinear_arith)
            requires
                a == b * (a / b) + a % b,
                0 <= a % b < b,
                a >= 0,
                b > 0,
        ;
    }
    if a <= 0 {
        lemma_fundamental_div_mod(-a, b);
        lemma_mod_bound(-a, b);
        assert((-a) / b >= 0) by (nonlinear_arith)
            requires
                -a == b * ((-a) / b) + (-a) % b,
                0 <= (-a) % b < b,
                -a >= 0,
                b > 0,
        ;
    }
}

/// A product `|n * d|` is within `|d|` multiples of `b` whenever `|n| <= b`:
/// helper for bounding shift and projection offsets.
pub proof fn lemma_div_t_product_bound(n: int, d: int, b: int)
    requires
        b > 0,
        -b <= n <= b,
    ensures
        -abs_i(d) <= div_t(n * d, b) <= abs_i(d),
{
    let c = abs_i(d);
    assert(-(c * b) <= n * d <= c * b) by (nonlinear_arith)
        requires
            -b <= n <= b,
            b > 0,
            c == abs_i(d),
            -c <= d <= c,
            c >= 0,
    ;
    lemma_div_t_bound(n * d, b, c);
}

/// Absolute value.
pub open spec fn abs_i(a: int) -> int {
    if a >= 0 {
        a
    } else {
        -a
    }
}

/// A box bound weakens to any larger box.
pub proof fn lemma_box_mono(s: Seq<GPt>, b1: int, b2: int)
    requires
        pts_in_box(s, b1),
        b1 <= b2,
    ensures
        pts_in_box(s, b2),
{
    assert forall|i: int| 0 <= i < s.len() implies in_box(#[trigger] s[i], b2) by {
        assert(in_box(s[i], b1));
    }
}

/// A product of bounded factors is bounded by the product of the bounds.
pub proof fn lemma_mul_bound(a: int, b: int, ca: int, cb: int)
    requires
        0 <= ca,
        0 <= cb,
        -ca <= a <= ca,
        -cb <= b <= cb,
    ensures
        -(ca * cb) <= a * b <= ca * cb,
{
    assert(-(ca * cb) <= a * b <= ca * cb) by (nonlinear_arith)
        requires
            0 <= ca,
            0 <= cb,
            -ca <= a <= ca,
            -cb <= b <= cb,
    ;
}

/// Truncating division with the exact value of `div_t` as its contract.
pub fn div_trunc(a: i64, b: i64) -> (r: i64)
    requires
        b > 0,
        a > i64::MIN,
    ensures
        r == div_t(a as int, b as int),
{
    if a >= 0 {
        a / b
    } else {
        let n = -a;
        proof {
            lemma_fundamental_div_mod(n as int, b as int);
            assert(n as int <= (n as int) * (b as int)) by (nonlinear_arith)
                requires
                    b >= 1,
                    n >= 0,
            ;
            lemma_div_t_bound(n as int, b as int, n as int);
        }
        -(n / b)
    }
}

/// Squared distance between two points.
pub open spec fn gdist_sq(a: GPt, b: GPt) -> int {
    (b.x - a.x) * (b.x - a.x) + (b.y - a.y) * (b.y - a.y)
}

/// Squared distance is symmetric.
pub proof fn lemma_gdist_sq_sym(a: GPt, b: GPt)
    ensures
        gdist_sq(a, b) == gdist_sq(b, a),
{
    assert((b.x - a.x) * (b.x - a.x) == (a.x - b.x) * (a.x - b.x)) by (nonlinear_arith);
    assert((b.y - a.y) * (b.y - a.y) == (a.y - b.y) * (a.y - b.y)) by (nonlinear_arith);
}

/// The squared distance of in-bounds points fits comfortably in `i64`.
pub proof fn lemma_dist_sq_bounds(a: GPt, b: GPt)
    requires
        in_box(a, PT_BOUND as int),
        in_box(b, PT_BOUND as int),
    ensures
        0 <= gdist_sq(a, b) <= 3_200_000_000_000_000,
{
    let dx = b.x - a.x;
    let dy = b.y - a.y;
    assert(0 <= dx * dx <= 1_600_000_000_000_000 && 0 <= dy * dy <= 1_600_000_000_000_000)
        by (nonlinear_arith)
        requires
            -40_000_000 <= dx <= 40_000_000,
            -40_000_000 <= dy <= 40_000_000,
    ;
}

/// Executable squared distance.
pub fn dist_sq_e(a: Pt, b: Pt) -> (r: i64)
    requires
        a.wf(),
        b.wf(),
    ensures
        r == gdist_sq(a@, b@),
        0 <= r <= 3_200_000_000_000_000,
{
    proof {
        lemma_dist_sq_bounds(a@, b@);
        let dx = b@.x - a@.x;
        let dy = b@.y - a@.y;
        assert(0 <= dx * dx <= 1_600_000_000_000_000 && 0 <= dy * dy <= 1_600_000_000_000_000)
            by (nonlinear_arith)
            requires
                -40_000_000 <= dx <= 40_000_000,
                -40_000_000 <= dy <= 40_000_000,
        ;
    }
    let dx = b.x - a.x;
    let dy = b.y - a.y;
    dx * dx + dy * dy
}

/// `r` is the floor of the square root of `n`.
pub open spec fn is_sqrt_floor(n: int, r: int) -> bool {
    0 <= r && r * r <= n && n < (r + 1) * (r + 1)
}

/// The floor square root, as a value: well defined for `n >= 0`.
pub open spec fn sqrt_floor(n: int) -> int {
    choose|r: int| is_sqrt_floor(n, r)
}

/// The floor square root is unique.
pub proof fn lemma_sqrt_floor_unique(n: int, r1: int, r2: int)
    requires
        is_sqrt_floor(n, r1),
        is_sqrt_floor(n, r2),
    ensures
        r1 == r2,
{
    if r1 < r2 {
        assert((r1 + 1) * (r1 + 1) <= r2 * r2) by (nonlinear_arith)
            requires
                0 <= r1 + 1 <= r2,
        ;
    }
    if r2 < r1 {
        assert((r2 + 1) * (r2 + 1) <= r1 * r1) by (nonlinear_arith)
            requires
                0 <= r2 + 1 <= r1,
        ;
    }
}

/// A floor square root exists for every nonnegative `n`.
pub proof fn lemma_sqrt_floor_exists(n: int)
    requires
        n >= 0,
    ensures
        is_sqrt_floor(n, sqrt_floor(n)),
    decreases n,
{
    if n == 0 {
        assert(is_sqrt_floor(0, 0));
    } else {
        lemma_sqrt_floor_exists(n - 1);
        let r = sqrt_floor(n - 1);
        if (r + 1) * (r + 1) <= n {
            assert(n - 1 < (r + 1) * (r + 1));
            assert(n < (r + 2) * (r + 2)) by (nonlinear_arith)
                requires
                    n == (r + 1) * (r + 1),
                    r >= 0,
            ;
            assert(is_sqrt_floor(n, r + 1));
        } else {
            assert(is_sqrt_floor(n, r));
        }
    }
    assert(exists|r: int| is_sqrt_floor(n, r));
}

/// Characterises `sqrt_floor(n)` for use at call sites.
pub proof fn lemma_sqrt_floor_props(n: int)
    requires
        n >= 0,
    ensures
        0 <= sqrt_floor(n),
        sqrt_floor(n) * sqrt_floor(n) <= n,
        n < (sqrt_floor(n) + 1) * (sqrt_floor(n) + 1),
{
    lemma_sqrt_floor_exists(n);
}

/// Floor square root by binary search.
pub fn isqrt(n: i64) -> (r: i64)
    requires
        0 <= n <= 3_200_000_000_000_000,
    ensures
        r == sqrt_floor(n as int),
        0 <= r <= 60_000_000,
{
    let mut lo: i64 = 0;
    let mut hi: i64 = 60_000_000;
    proof {
        assert((60_000_000i64 + 1) * (60_000_000i64 + 1) > 3_200_000_000_000_000)
            by (nonlinear_arith);
    }
    while lo < hi
        invariant
            0 <= lo <= hi <= 60_000_000,
            lo * lo <= n,
            n < (hi + 1) * (hi + 1),
        decreases hi - lo,
    {
        let mid = lo + (hi - lo + 1) / 2;
        proof {
            assert(lo < mid <= hi);
            assert(mid * mid <= 60_000_000i64 * 60_000_000i64) by (nonlinear_arith)
                requires
                    0 <= mid <= 60_000_000,
            ;
        }
        if mid * mid <= n {
            lo = mid;
        } else {
            hi = mid - 1;
        }
    }
    proof {
        assert(is_sqrt_floor(n as int, lo as int));
        lemma_sqrt_floor_exists(n as int);
        lemma_sqrt_floor_unique(n as int, lo as int, sqrt_floor(n as int));
    }
    lo
}

/// Length of the segment from `a` to `b`: the floor square root of the
/// squared distance.
pub open spec fn gseg_len(a: GPt, b: GPt) -> int {
    sqrt_floor(gdist_sq(a, b))
}

/// The segment length dominates the absolute value of both coordinate
/// differences, and stays within a small fixed bound.
pub proof fn lemma_seg_len_ge_components(a: GPt, b: GPt)
    requires
        in_box(a, PT_BOUND as int),
        in_box(b, PT_BOUND as int),
    ensures
        gseg_len(a, b) >= 0,
        gseg_len(a, b) >= b.x - a.x >= -gseg_len(a, b),
        gseg_len(a, b) >= b.y - a.y >= -gseg_len(a, b),
        gseg_len(a, b) <= 60_000_000,
{
    lemma_dist_sq_bounds(a, b);
    let n = gdist_sq(a, b);
    lemma_sqrt_floor_props(n);
    let r = sqrt_floor(n);
    let dx = b.x - a.x;
    let dy = b.y - a.y;
    assert(dx * dx <= n && dy * dy <= n) by (nonlinear_arith)
        requires
            n == dx * dx + dy * dy,
    ;
    if dx > r {
        assert((r + 1) * (r + 1) <= dx * dx) by (nonlinear_arith)
            requires
                0 <= r + 1 <= dx,
        ;
    }
    if dx < -r {
        assert((r + 1) * (r + 1) <= dx * dx) by (nonlinear_arith)
            requires
                dx <= -(r + 1) <= 0,
        ;
    }
    if dy > r {
        assert((r + 1) * (r + 1) <= dy * dy) by (nonlinear_arith)
            requires
                0 <= r + 1 <= dy,
        ;
    }
    if dy < -r {
        assert((r + 1) * (r + 1) <= dy * dy) by (nonlinear_arith)
            requires
                dy <= -(r + 1) <= 0,
        ;
    }
    if r > 60_000_000 {
        assert(r * r > 3_200_000_000_000_000) by (nonlinear_arith)
            requires
                r > 60_000_000,
        ;
    }
}

/// A segment strictly longer than the degenerate tolerance has positive
/// floor length.
pub proof fn lemma_seg_len_pos(a: GPt, b: GPt)
    requires
        gdist_sq(a, b) > EPSILON_SQ,
    ensures
        gseg_len(a, b) >= EPSILON_MM,
{
    lemma_sqrt_floor_props(gdist_sq(a, b));
    let r = sqrt_floor(gdist_sq(a, b));
    if r < EPSILON_MM {
        assert((r + 1) * (r + 1) <= EPSILON_MM as int * EPSILON_MM as int) by (nonlinear_arith)
            requires
                0 <= r + 1 <= EPSILON_MM as int,
        ;
    }
}

/// Executable segment length.
pub fn seg_len_e(a: Pt, b: Pt) -> (r: i64)
    requires
        a.wf(),
        b.wf(),
    ensures
        r == gseg_len(a@, b@),
        0 <= r <= 60_000_000,
{
    let d = dist_sq_e(a, b);
    isqrt(d)
}

// ---------------------------------------------------------------------------
// Directed line segments
// ---------------------------------------------------------------------------

/// A directed line segment. Well-formed lines are longer than the degenerate
/// tolerance.
#[derive(Clone, Copy, PartialEq, Eq, Structural, Debug)]
pub struct Line {
    pub p1: Pt,
    pub p2: Pt,
}

impl Line {
    pub open spec fn wf(self) -> bool {
        &&& self.p1.wf()
        &&& self.p2.wf()
        &&& gdist_sq(self.p1@, self.p2@) > EPSILON_SQ
    }

    /// Both endpoints lie within the box `[-b, b]` on each axis.
    pub open spec fn in_box_l(self, b: int) -> bool {
        in_box(self.p1@, b) && in_box(self.p2@, b)
    }

    pub open spec fn len(self) -> int {
        gseg_len(self.p1@, self.p2@)
    }

    /// Executable length.
    pub fn length(&self) -> (r: i64)
        requires
            self.wf(),
        ensures
            r == self.len(),
            EPSILON_MM <= r <= 60_000_000,
    {
        proof {
            lemma_seg_len_pos(self.p1@, self.p2@);
        }
        seg_len_e(self.p1, self.p2)
    }

    /// The same segment, walked the other way.
    pub fn reverse(&self) -> (r: Line)
        ensures
            r.p1 == self.p2,
            r.p2 == self.p1,
    {
        Line { p1: self.p2, p2: self.p1 }
    }
}

/// The offset vector that shifts a point sideways of the direction `a -> b`:
/// positive `d` shifts toward the left of the direction of travel.
pub open spec fn gshift_off(a: GPt, b: GPt, d: int) -> GPt {
    let len = gseg_len(a, b);
    GPt { x: div_t((b.y - a.y) * d, len), y: div_t((a.x - b.x) * d, len) }
}

/// A point translated by the offset vector of the segment `a -> b`.
pub open spec fn gshift_pt(p: GPt, a: GPt, b: GPt, d: int) -> GPt {
    let off = gshift_off(a, b, d);
    GPt { x: p.x + off.x, y: p.y + off.y }
}

/// Shift offsets are no larger than the shift distance itself.
pub proof fn lemma_gshift_off_bound(a: GPt, b: GPt, d: int)
    requires
        in_box(a, PT_BOUND as int),
        in_box(b, PT_BOUND as int),
        gseg_len(a, b) > 0,
    ensures
        -abs_i(d) <= gshift_off(a, b, d).x <= abs_i(d),
        -abs_i(d) <= gshift_off(a, b, d).y <= abs_i(d),
{
    let len = gseg_len(a, b);
    lemma_seg_len_ge_components(a, b);
    lemma_div_t_product_bound(b.y - a.y, d, len);
    lemma_div_t_product_bound(a.x - b.x, d, len);
}

/// Executable sideways shift of a whole line: both endpoints move by the same
/// offset vector, so direction and length are preserved exactly.
impl Line {
    pub fn shift(&self, d: i64) -> (r: Line)
        requires
            self.wf(),
            self.in_box_l(WORK_BOUND as int),
            -MAX_SHIFT <= d <= MAX_SHIFT,
        ensures
            r.p1@ == gshift_pt(self.p1@, self.p1@, self.p2@, d as int),
            r.p2@ == gshift_pt(self.p2@, self.p1@, self.p2@, d as int),
            r.wf(),
            r.in_box_l(WORK_BOUND as int + MAX_SHIFT as int),
            r.p2@.x - r.p1@.x == self.p2@.x - self.p1@.x,
            r.p2@.y - r.p1@.y == self.p2@.y - self.p1@.y,
            r.len() == self.len(),
    {
        proof {
            lemma_seg_len_pos(self.p1@, self.p2@);
            lemma_gshift_off_bound(self.p1@, self.p2@, d as int);
            lemma_mul_bound(
                self.p2@.y - self.p1@.y,
                d as int,
                36_000_000,
                MAX_SHIFT as int,
            );
            lemma_mul_bound(
                self.p1@.x - self.p2@.x,
                d as int,
                36_000_000,
                MAX_SHIFT as int,
            );
        }
        let len = seg_len_e(self.p1, self.p2);
        let dx = self.p2.x - self.p1.x;
        let dy = self.p2.y - self.p1.y;
        let off_x = div_trunc(dy * d, len);
        let off_y = div_trunc(-dx * d, len);
        let r = Line {
            p1: Pt { x: self.p1.x + off_x, y: self.p1.y + off_y },
            p2: Pt { x: self.p2.x + off_x, y: self.p2.y + off_y },
        };
        proof {
            assert(gdist_sq(r.p1@, r.p2@) == gdist_sq(self.p1@, self.p2@));
        }
        r
    }

    /// The point at arc distance `d` from `p1` along the (unbounded) line
    /// through `p1` and `p2`: negative distances go backwards.
    pub fn unbounded_dist_along(&self, d: i64) -> (r: Pt)
        requires
            self.wf(),
            self.in_box_l(WORK_BOUND as int),
            -MAX_PROJECT <= d <= MAX_PROJECT,
        ensures
            r@ == galong(self.p1@, self.p2@, d as int),
            in_box(r@, WORK_BOUND as int + MAX_PROJECT as int),
    {
        proof {
            lemma_seg_len_pos(self.p1@, self.p2@);
            lemma_seg_len_ge_components(self.p1@, self.p2@);
            lemma_div_t_product_bound(self.p2@.x - self.p1@.x, d as int, self.len());
            lemma_div_t_product_bound(self.p2@.y - self.p1@.y, d as int, self.len());
            lemma_mul_bound(
                self.p2@.x - self.p1@.x,
                d as int,
                36_000_000,
                MAX_PROJECT as int,
            );
            lemma_mul_bound(
                self.p2@.y - self.p1@.y,
                d as int,
                36_000_000,
                MAX_PROJECT as int,
            );
        }
        let len = seg_len_e(self.p1, self.p2);
        let dx = self.p2.x - self.p1.x;
        let dy = self.p2.y - self.p1.y;
        Pt { x: self.p1.x + div_trunc(dx * d, len), y: self.p1.y + div_trunc(dy * d, len) }
    }

    /// The (scaled) unit direction vector of the line.
    pub fn dir(&self) -> (r: Dir)
        requires
            self.wf(),
        ensures
            r@ == gdir(self.p1@, self.p2@),
            r.wf(),
    {
        proof {
            lemma_seg_len_pos(self.p1@, self.p2@);
            lemma_seg_len_ge_components(self.p1@, self.p2@);
            lemma_div_t_product_bound(self.p2@.x - self.p1@.x, DIR_UNIT as int, self.len());
            lemma_div_t_product_bound(self.p2@.y - self.p1@.y, DIR_UNIT as int, self.len());
            lemma_mul_bound(self.p2@.x - self.p1@.x, DIR_UNIT as int, 40_000_000, DIR_UNIT as int);
            lemma_mul_bound(self.p2@.y - self.p1@.y, DIR_UNIT as int, 40_000_000, DIR_UNIT as int);
        }
        let len = seg_len_e(self.p1, self.p2);
        let dx = self.p2.x - self.p1.x;
        let dy = self.p2.y - self.p1.y;
        Dir { x: div_trunc(dx * DIR_UNIT, len), y: div_trunc(dy * DIR_UNIT, len) }
    }
}

/// The point at arc distance `d` from `a` along the unbounded line through
/// `a` and `b`.
pub open spec fn galong(a: GPt, b: GPt, d: int) -> GPt {
    let len = gseg_len(a, b);
    GPt { x: a.x + div_t((b.x - a.x) * d, len), y: a.y + div_t((b.y - a.y) * d, len) }
}

/// A point projected along a segment stays within the projection distance
/// of its start.
pub proof fn lemma_galong_near(a: GPt, b: GPt, d: int)
    requires
        in_box(a, PT_BOUND as int),
        in_box(b, PT_BOUND as int),
        gseg_len(a, b) > 0,
    ensures
        a.x - abs_i(d) <= galong(a, b, d).x <= a.x + abs_i(d),
        a.y - abs_i(d) <= galong(a, b, d).y <= a.y + abs_i(d),
{
    lemma_seg_len_ge_components(a, b);
    let len = gseg_len(a, b);
    lemma_div_t_product_bound(b.x - a.x, d, len);
    lemma_div_t_product_bound(b.y - a.y, d, len);
}

/// Truncating division leaves a remainder strictly smaller than the divisor
/// in magnitude.
pub proof fn lemma_div_t_rem(m: int, b: int)
    requires
        b > 0,
    ensures
        -b < m - b * div_t(m, b) < b,
{
    if m >= 0 {
        lemma_fundamental_div_mod(m, b);
        lemma_mod_bound(m, b);
    } else {
        lemma_fundamental_div_mod(-m, b);
        lemma_mod_bound(-m, b);
        let q = (-m) / b;
        assert(-m == b * q + (-m) % b);
        assert(b * (-q) == -(b * q)) by (nonlinear_arith);
    }
}

/// The two anchor points of a border arrow, projected 9.5 m and 0.5 m back
/// along a line, are far enough apart that the arrow is never degenerate.
pub proof fn lemma_along_pts_apart(a: GPt, b: GPt)
    requires
        in_box(a, PT_BOUND as int),
        in_box(b, PT_BOUND as int),
        gseg_len(a, b) > 0,
    ensures
        gdist_sq(galong(a, b, -9500), galong(a, b, -500)) > EPSILON_SQ,
{
    let len = gseg_len(a, b);
    let dx = b.x - a.x;
    let dy = b.y - a.y;
    lemma_dist_sq_bounds(a, b);
    lemma_sqrt_floor_props(gdist_sq(a, b));
    assert(len * len <= dx * dx + dy * dy);
    let q1x = div_t(dx * (-500), len);
    let q2x = div_t(dx * (-9500), len);
    let q1y = div_t(dy * (-500), len);
    let q2y = div_t(dy * (-9500), len);
    lemma_div_t_rem(dx * (-500), len);
    lemma_div_t_rem(dx * (-9500), len);
    lemma_div_t_rem(dy * (-500), len);
    lemma_div_t_rem(dy * (-9500), len);
    let ex = q1x - q2x;
    let ey = q1y - q2y;
    assert(dx * (-500) - dx * (-9500) == 9000 * dx) by (nonlinear_arith);
    assert(dy * (-500) - dy * (-9500) == 9000 * dy) by (nonlinear_arith);
    assert(len * (q1x - q2x) == len * q1x - len * q2x) by (nonlinear_arith);
    assert(len * (q1y - q2y) == len * q1y - len * q2y) by (nonlinear_arith);
    assert(9000 * dx - 2 * len < len * ex < 9000 * dx + 2 * len);
    assert(9000 * dy - 2 * len < len * ey < 9000 * dy + 2 * len);
    if dx * dx >= dy * dy {
        assert(2 * (dx * dx) >= len * len);
        if dx >= 0 {
            assert(2 * dx > len) by (nonlinear_arith)
                requires
                    2 * (dx * dx) >= len * len,
                    dx >= 0,
                    len > 0,
            ;
            assert(9000 * dx >= 4500 * (len + 1));
            assert(len * ex > 4500 * (len + 1) - 2 * len);
            assert(ex > 10) by (nonlinear_arith)
                requires
                    len * ex > 4500 * (len + 1) - 2 * len,
                    len > 0,
            ;
            assert(ex * ex > EPSILON_SQ) by (nonlinear_arith)
                requires
                    ex > 10,
            ;
        } else {
            assert(2 * (-dx) > len) by (nonlinear_arith)
                requires
                    2 * (dx * dx) >= len * len,
                    dx < 0,
                    len > 0,
            ;
            assert(9000 * dx <= -4500 * (len + 1));
            assert(len * ex < -4500 * (len + 1) + 2 * len);
            assert(ex < -10) by (nonlinear_arith)
                requires
                    len * ex < -4500 * (len + 1) + 2 * len,
                    len > 0,
            ;
            assert(ex * ex > EPSILON_SQ) by (nonlinear_arith)
                requires
                    ex < -10,
            ;
        }
        assert(ey * ey >= 0) by (nonlinear_arith);
    } else {
        assert(2 * (dy * dy) >= len * len);
        if dy >= 0 {
            assert(2 * dy > len) by (nonlinear_arith)
                requires
                    2 * (dy * dy) >= len * len,
                    dy >= 0,
                    len > 0,
            ;
            assert(9000 * dy >= 4500 * (len + 1));
            assert(len * ey > 4500 * (len + 1) - 2 * len);
            assert(ey > 10) by (nonlinear_arith)
                requires
                    len * ey > 4500 * (len + 1) - 2 * len,
                    len > 0,
            ;
            assert(ey * ey > EPSILON_SQ) by (nonlinear_arith)
                requires
                    ey > 10,
            ;
        } else {
            assert(2 * (-dy) > len) by (nonlinear_arith)
                requires
                    2 * (dy * dy) >= len * len,
                    dy < 0,
                    len > 0,
            ;
            assert(9000 * dy <= -4500 * (len + 1));
            assert(len * ey < -4500 * (len + 1) + 2 * len);
            assert(ey < -10) by (nonlinear_arith)
                requires
                    len * ey < -4500 * (len + 1) + 2 * len,
                    len > 0,
            ;
            assert(ey * ey > EPSILON_SQ) by (nonlinear_arith)
                requires
                    ey < -10,
            ;
        }
        assert(ex * ex >= 0) by (nonlinear_arith);
    }
    let p1 = galong(a, b, -9500);
    let p2 = galong(a, b, -500);
    assert(p2.x - p1.x == ex && p2.y - p1.y == ey);
    assert(gdist_sq(p1, p2) == ex * ex + ey * ey);
}

/// The direction of the segment `a -> b`, as a vector of length `DIR_UNIT`.
pub open spec fn gdir(a: GPt, b: GPt) -> GPt {
    let len = gseg_len(a, b);
    GPt { x: div_t((b.x - a.x) * DIR_UNIT, len), y: div_t((b.y - a.y) * DIR_UNIT, len) }
}

/// A heading: a direction vector whose components are scaled by `DIR_UNIT`.
#[derive(Clone, Copy, PartialEq, Eq, Structural, Debug)]
pub struct Dir {
    pub x: i64,
    pub y: i64,
}

impl View for Dir {
    type V = GPt;

    open spec fn view(&self) -> GPt {
        GPt { x: self.x as int, y: self.y as int }
    }
}

impl Dir {
    pub open spec fn wf(self) -> bool {
        in_box(self@, DIR_UNIT as int)
    }

    /// The opposite heading.
    pub fn opposite(&self) -> (r: Dir)
        requires
            self.wf(),
        ensures
            r@ == gopposite(self@),
            r.wf(),
    {
        Dir { x: -self.x, y: -self.y }
    }
}

/// The opposite of a direction vector.
pub open spec fn gopposite(d: GPt) -> GPt {
    GPt { x: -d.x, y: -d.y }
}

/// The point at distance `dist` from `p` along the heading `dir`.
pub open spec fn gproject(p: GPt, dir: GPt, dist: int) -> GPt {
    GPt {
        x: p.x + div_t(dist * dir.x, DIR_UNIT as int),
        y: p.y + div_t(dist * dir.y, DIR_UNIT as int),
    }
}

/// Executable projection of a point along a heading.
pub fn project_away(p: Pt, dist: i64, dir: Dir) -> (r: Pt)
    requires
        in_box(p@, WORK_BOUND as int),
        dir.wf(),
        -MAX_PROJECT <= dist <= MAX_PROJECT,
    ensures
        r@ == gproject(p@, dir@, dist as int),
        in_box(r@, WORK_BOUND as int + MAX_PROJECT as int),
{
    proof {
        lemma_div_t_product_bound(dir@.x, dist as int, DIR_UNIT as int);
        lemma_div_t_product_bound(dir@.y, dist as int, DIR_UNIT as int);
        assert(dist as int * dir@.x == dir@.x * dist as int) by (nonlinear_arith);
        assert(dist as int * dir@.y == dir@.y * dist as int) by (nonlinear_arith);
        lemma_mul_bound(dist as int, dir@.x, MAX_PROJECT as int, DIR_UNIT as int);
        lemma_mul_bound(dist as int, dir@.y, MAX_PROJECT as int, DIR_UNIT as int);
    }
    Pt {
        x: p.x + div_trunc(dist * dir.x, DIR_UNIT),
        y: p.y + div_trunc(dist * dir.y, DIR_UNIT),
    }
}

// ---------------------------------------------------------------------------
// Polylines
// ---------------------------------------------------------------------------

/// The views of a sequence of points.
pub open spec fn pts_view(v: Seq<Pt>) -> Seq<GPt> {
    Seq::new(v.len(), |i: int| v[i]@)
}

/// All points of `s` lie within the box `[-b, b]` on each axis.
pub open spec fn pts_in_box(s: Seq<GPt>, b: int) -> bool {
    forall|i: int| 0 <= i < s.len() ==> in_box(#[trigger] s[i], b)
}

/// Every segment of `s` is longer than the degenerate tolerance: the
/// precondition for offsetting operations.
pub open spec fn clean(s: Seq<GPt>) -> bool {
    forall|i: int| 0 <= i < s.len() - 1 ==> #[trigger] gdist_sq(s[i], s[i + 1]) > EPSILON_SQ
}

/// A path through two or more points.
#[derive(Debug)]
pub struct PolyLine {
    pub pts: Vec<Pt>,
}

impl View for PolyLine {
    type V = Seq<GPt>;

    open spec fn view(&self) -> Seq<GPt> {
        pts_view(self.pts@)
    }
}

/// Well-formedness of a polyline's view.
pub open spec fn pl_wf(s: Seq<GPt>) -> bool {
    &&& 2 <= s.len() <= MAX_PTS
    &&& pts_in_box(s, PT_BOUND as int)
}

impl PolyLine {
    pub open spec fn wf(self) -> bool {
        pl_wf(self@)
    }
}

/// Sum of the lengths of the first `k` segments of `s`.
pub open spec fn pl_len_to(s: Seq<GPt>, k: int) -> int
    decreases k,
{
    if k <= 0 {
        0
    } else {
        pl_len_to(s, k - 1) + gseg_len(s[k - 1], s[k])
    }
}

/// Total arc length of `s`: the sum of its segment lengths.
pub open spec fn pl_len(s: Seq<GPt>) -> int {
    pl_len_to(s, s.len() - 1)
}

/// Every prefix sum of segment lengths is nonnegative and bounded.
pub proof fn lemma_pl_len_to_bounds(s: Seq<GPt>, k: int)
    requires
        pts_in_box(s, PT_BOUND as int),
        0 <= k < s.len(),
    ensures
        0 <= pl_len_to(s, k),
        pl_len_to(s, k) <= k * 60_000_000,
    decreases k,
{
    if k <= 0 {
    } else {
        lemma_pl_len_to_bounds(s, k - 1);
        lemma_seg_len_ge_components(s[k - 1], s[k]);
        lemma_dist_sq_bounds(s[k - 1], s[k]);
        lemma_sqrt_floor_props(gdist_sq(s[k - 1], s[k]));
    }
}

/// The arc length of a whole polyline is nonnegative and fits in `i64`.
pub proof fn lemma_pl_len_bounds(s: Seq<GPt>)
    requires
        pts_in_box(s, PT_BOUND as int),
        s.len() >= 1,
    ensures
        0 <= pl_len(s) <= (s.len() - 1) * 60_000_000,
{
    lemma_pl_len_to_bounds(s, s.len() - 1);
}

impl PolyLine {
    /// Builds a polyline from a point list.
    pub fn new(pts: Vec<Pt>) -> (r: PolyLine)
        requires
            pl_wf(pts_view(pts@)),
        ensures
            r@ == pts_view(pts@),
            r.wf(),
    {
        PolyLine { pts }
    }

    pub fn len_pts(&self) -> (n: usize)
        ensures
            n == self@.len(),
    {
        self.pts.len()
    }

    pub fn get_pt(&self, i: usize) -> (p: Pt)
        requires
            i < self@.len(),
        ensures
            p@ == self@[i as int],
            p == self.pts@[i as int],
    {
        self.pts[i]
    }

    /// Total arc length.
    pub fn length(&self) -> (r: i64)
        requires
            self.wf(),
        ensures
            r == pl_len(self@),
            0 <= r <= 60_000_000_000,
    {
        let ghost s = self@;
        let mut acc: i64 = 0;
        let mut i: usize = 1;
        proof {
            lemma_pl_len_to_bounds(s, 0);
        }
        while i < self.pts.len()
            invariant
                1 <= i <= self.pts.len(),
                self.wf(),
                s == self@,
                acc == pl_len_to(s, i - 1),
                0 <= acc <= (i - 1) * 60_000_000,
            decreases self.pts.len() - i,
        {
            proof {
                lemma_pl_len_to_bounds(s, i as int);
                lemma_seg_len_ge_components(s[i as int - 1], s[i as int]);
            }
            let d = seg_len_e(self.pts[i - 1], self.pts[i]);
            acc = acc + d;
            i = i + 1;
        }
        proof {
            assert(i == self.pts.len());
            lemma_pl_len_to_bounds(s, s.len() - 1);
        }
        acc
    }

    /// The first segment, as a line.
    pub fn first_line(&self) -> (r: Line)
        requires
            self.wf(),
            gdist_sq(self@[0], self@[1]) > EPSILON_SQ,
        ensures
            r.p1@ == self@[0],
            r.p2@ == self@[1],
            r.wf(),
    {
        Line { p1: self.pts[0], p2: self.pts[1] }
    }

    /// The last segment, as a line.
    pub fn last_line(&self) -> (r: Line)
        requires
            self.wf(),
            gdist_sq(self@[self@.len() - 2], self@[self@.len() - 1]) > EPSILON_SQ,
        ensures
            r.p1@ == self@[self@.len() - 2],
            r.p2@ == self@[self@.len() - 1],
            r.wf(),
    {
        let n = self.pts.len();
        Line { p1: self.pts[n - 2], p2: self.pts[n - 1] }
    }

    /// Checks that every segment is longer than the degenerate tolerance.
    pub fn is_clean(&self) -> (r: bool)
        requires
            self.wf(),
        ensures
            r == clean(self@),
    {
        let mut i: usize = 0;
        while i + 1 < self.pts.len()
            invariant
                self.wf(),
                0 <= i <= self@.len() - 1,
                forall|j: int|
                    0 <= j < i ==> #[trigger] gdist_sq(self@[j], self@[j + 1]) > EPSILON_SQ,
            decreases self.pts.len() - i,
        {
            proof {
                assert(in_box(self@[i as int], PT_BOUND as int));
                assert(in_box(self@[i as int + 1], PT_BOUND as int));
            }
            let d = dist_sq_e(self.pts[i], self.pts[i + 1]);
            if d <= EPSILON_SQ {
                proof {
                    assert(gdist_sq(self@[i as int], self@[i as int + 1]) <= EPSILON_SQ);
                }
                return false;
            }
            i = i + 1;
        }
        true
    }
}

/// The `i`-th point of a polyline shifted sideways by `d`: end points move by
/// their own segment's offset, interior points by the truncated average of
/// the offsets of the two segments that meet there.
pub open spec fn shifted_pt_at(s: Seq<GPt>, d: int, i: int) -> GPt {
    if i == 0 {
        gshift_pt(s[0], s[0], s[1], d)
    } else if i == s.len() - 1 {
        gshift_pt(s[i], s[i - 1], s[i], d)
    } else {
        let oa = gshift_off(s[i - 1], s[i], d);
        let ob = gshift_off(s[i], s[i + 1], d);
        GPt { x: s[i].x + div_t(oa.x + ob.x, 2), y: s[i].y + div_t(oa.y + ob.y, 2) }
    }
}

/// A whole polyline shifted sideways by `d`: positive `d` shifts to the left
/// of the direction of travel.
pub open spec fn shift_pl(s: Seq<GPt>, d: int) -> Seq<GPt> {
    Seq::new(s.len(), |i: int| shifted_pt_at(s, d, i))
}

/// Bound on the points of a shifted polyline.
pub proof fn lemma_shift_pl_box(s: Seq<GPt>, d: int, b: int)
    requires
        clean(s),
        s.len() >= 2,
        pts_in_box(s, b),
        0 <= b <= PT_BOUND as int,
    ensures
        pts_in_box(shift_pl(s, d), b + abs_i(d)),
{
    let r = shift_pl(s, d);
    assert forall|i: int| 0 <= i < r.len() implies in_box(#[trigger] r[i], b + abs_i(d)) by {
        if i == 0 {
            let j: int = 0;
            assert(gdist_sq(s[j], s[j + 1]) > EPSILON_SQ);
            lemma_seg_len_pos(s[0], s[1]);
            lemma_gshift_off_bound(s[0], s[1], d);
        } else if i == s.len() - 1 {
            let j = i - 1;
            assert(gdist_sq(s[j], s[j + 1]) > EPSILON_SQ);
            lemma_seg_len_pos(s[i - 1], s[i]);
            lemma_gshift_off_bound(s[i - 1], s[i], d);
        } else {
            let j = i - 1;
            assert(gdist_sq(s[j], s[j + 1]) > EPSILON_SQ);
            assert(gdist_sq(s[i], s[i + 1]) > EPSILON_SQ);
            lemma_seg_len_pos(s[i - 1], s[i]);
            lemma_seg_len_pos(s[i], s[i + 1]);
            lemma_gshift_off_bound(s[i - 1], s[i], d);
            lemma_gshift_off_bound(s[i], s[i + 1], d);
            let oa = gshift_off(s[i - 1], s[i], d);
            let ob = gshift_off(s[i], s[i + 1], d);
            lemma_div_t_bound(oa.x + ob.x, 2, abs_i(d));
            lemma_div_t_bound(oa.y + ob.y, 2, abs_i(d));
        }
    }
}

impl PolyLine {
    /// Shifts the polyline sideways by `d`: to the left of the direction of
    /// travel for positive `d`, to the right for negative `d`. Declines
    /// exactly when some segment is degenerate.
    pub fn shift_either(&self, d: i64) -> (r: Option<PolyLine>)
        requires
            self.wf(),
            pts_in_box(self@, WORK_BOUND as int),
            -MAX_SHIFT <= d <= MAX_SHIFT,
        ensures
            r is Some <==> clean(self@),
            r is Some ==> r->Some_0@ == shift_pl(self@, d as int) && r->Some_0@.len()
                == self@.len() && r->Some_0.wf(),
    {
        let ghost s = self@;
        if !self.is_clean() {
            return None;
        }
        proof {
            lemma_shift_pl_box(s, d as int, WORK_BOUND as int);
        }
        let n = self.pts.len();
        // Offsets of each segment.
        let mut offs: Vec<Pt> = Vec::new();
        let mut i: usize = 0;
        while i + 1 < n
            invariant
                self.wf(),
                clean(s),
                pts_in_box(s, WORK_BOUND as int),
                s == self@,
                -MAX_SHIFT <= d <= MAX_SHIFT,
                n == self@.len(),
                offs@.len() == i,
                i <= n - 1,
                forall|j: int|
                    0 <= j < i ==> #[trigger] offs@[j]@ == gshift_off(s[j], s[j + 1], d as int),
                forall|j: int|
                    0 <= j < i ==> in_box(#[trigger] offs@[j]@, MAX_SHIFT as int),
            decreases n - i,
        {
            proof {
                let j = i as int;
                assert(gdist_sq(s[j], s[j + 1]) > EPSILON_SQ);
                lemma_seg_len_pos(s[i as int], s[i as int + 1]);
                lemma_gshift_off_bound(s[i as int], s[i as int + 1], d as int);
                lemma_mul_bound(
                    s[i as int + 1].y - s[i as int].y,
                    d as int,
                    36_000_000,
                    MAX_SHIFT as int,
                );
                lemma_mul_bound(
                    s[i as int].x - s[i as int + 1].x,
                    d as int,
                    36_000_000,
                    MAX_SHIFT as int,
                );
            }
            let len = seg_len_e(self.pts[i], self.pts[i + 1]);
            let dx = self.pts[i + 1].x - self.pts[i].x;
            let dy = self.pts[i + 1].y - self.pts[i].y;
            let off = Pt { x: div_trunc(dy * d, len), y: div_trunc(-dx * d, len) };
            offs.push(off);
            i = i + 1;
        }
        let mut out: Vec<Pt> = Vec::new();
        let mut k: usize = 0;
        while k < n
            invariant
                self.wf(),
                clean(s),
                pts_in_box(s, WORK_BOUND as int),
                s == self@,
                -MAX_SHIFT <= d <= MAX_SHIFT,
                n == self@.len(),
                offs@.len() == n - 1,
                forall|j: int|
                    0 <= j < n - 1 ==> #[trigger] offs@[j]@ == gshift_off(s[j], s[j + 1], d as int),
                forall|j: int|
                    0 <= j < n - 1 ==> in_box(#[trigger] offs@[j]@, MAX_SHIFT as int),
                out@.len() == k,
                k <= n,
                forall|j: int|
                    0 <= j < k ==> #[trigger] out@[j]@ == shifted_pt_at(s, d as int, j),
            decreases n - k,
        {
            let p = self.pts[k];
            proof {
                assert(in_box(s[k as int], WORK_BOUND as int));
            }
            let o: Pt;
            if k == 0 {
                proof {
                    let j: int = 0;
                    assert(offs@[j]@ == gshift_off(s[j], s[j + 1], d as int));
                    assert(in_box(offs@[j]@, MAX_SHIFT as int));
                }
                o = offs[0];
            } else if k == n - 1 {
                proof {
                    assert(in_box(offs@[k as int - 1]@, MAX_SHIFT as int));
                }
                o = offs[k - 1];
            } else {
                proof {
                    assert(in_box(offs@[k as int - 1]@, MAX_SHIFT as int));
                    assert(in_box(offs@[k as int]@, MAX_SHIFT as int));
                }
                let a = offs[k - 1];
                let b = offs[k];
                o = Pt { x: div_trunc(a.x + b.x, 2), y: div_trunc(a.y + b.y, 2) };
                proof {
                    let oa = gshift_off(s[k as int - 1], s[k as int], d as int);
                    let ob = gshift_off(s[k as int], s[k as int + 1], d as int);
                    assert(o@.x == div_t(oa.x + ob.x, 2));
                    assert(o@.y == div_t(oa.y + ob.y, 2));
                }
            }
            out.push(Pt { x: p.x + o.x, y: p.y + o.y });
            k = k + 1;
        }
        proof {
            assert(pts_view(out@) =~= shift_pl(s, d as int));
            lemma_shift_pl_box(s, d as int, WORK_BOUND as int);
            assert(pl_wf(pts_view(out@)));
        }
        Some(PolyLine { pts: out })
    }
}

// ---------------------------------------------------------------------------
// Interpolation and slicing by arc length
// ---------------------------------------------------------------------------

/// The point at arc distance `d` within the segment `a -> b`, for
/// `0 <= d <= gseg_len(a, b)`. A zero-length segment yields `a`.
pub open spec fn ginterp(a: GPt, b: GPt, d: int) -> GPt {
    let len = gseg_len(a, b);
    if len == 0 {
        a
    } else {
        GPt { x: a.x + div_t((b.x - a.x) * d, len), y: a.y + div_t((b.y - a.y) * d, len) }
    }
}

/// Interpolated points stay inside any box that holds both endpoints.
pub proof fn lemma_interp_in_box(a: GPt, b: GPt, d: int, bb: int)
    requires
        in_box(a, bb),
        in_box(b, bb),
        in_box(a, PT_BOUND as int),
        in_box(b, PT_BOUND as int),
        0 <= d <= gseg_len(a, b),
    ensures
        in_box(ginterp(a, b, d), bb),
{
    let len = gseg_len(a, b);
    lemma_dist_sq_bounds(a, b);
    lemma_sqrt_floor_props(gdist_sq(a, b));
    if len != 0 {
        lemma_seg_len_ge_components(a, b);
        let dx = b.x - a.x;
        let dy = b.y - a.y;
        assert(dx * d == d * dx && dy * d == d * dy) by (nonlinear_arith);
        lemma_div_t_product_bound(d, dx, len);
        lemma_div_t_product_bound(d, dy, len);
        lemma_div_t_sign(dx * d, len);
        lemma_div_t_sign(dy * d, len);
        assert((dx >= 0 ==> dx * d >= 0) && (dx <= 0 ==> dx * d <= 0)) by (nonlinear_arith)
            requires
                d >= 0,
        ;
        assert((dy >= 0 ==> dy * d >= 0) && (dy <= 0 ==> dy * d <= 0)) by (nonlinear_arith)
            requires
                d >= 0,
        ;
        let ox = div_t(dx * d, len);
        let oy = div_t(dy * d, len);
        assert(-abs_i(dx) <= ox <= abs_i(dx));
        assert(-abs_i(dy) <= oy <= abs_i(dy));
        if dx >= 0 {
            assert(a.x <= a.x + ox <= b.x);
        } else {
            assert(b.x <= a.x + ox <= a.x);
        }
        if dy >= 0 {
            assert(a.y <= a.y + oy <= b.y);
        } else {
            assert(b.y <= a.y + oy <= a.y);
        }
    }
}

/// Executable interpolation within a segment.
pub fn interp_e(a: Pt, b: Pt, d: i64) -> (r: Pt)
    requires
        in_box(a@, WORK_BOUND as int),
        in_box(b@, WORK_BOUND as int),
        0 <= d <= gseg_len(a@, b@),
    ensures
        r@ == ginterp(a@, b@, d as int),
        in_box(r@, WORK_BOUND as int),
{
    proof {
        lemma_interp_in_box(a@, b@, d as int, WORK_BOUND as int);
        lemma_seg_len_ge_components(a@, b@);
        lemma_mul_bound(b@.x - a@.x, d as int, 36_000_000, 60_000_000);
        lemma_mul_bound(b@.y - a@.y, d as int, 36_000_000, 60_000_000);
    }
    let len = seg_len_e(a, b);
    if len == 0 {
        a
    } else {
        let dx = b.x - a.x;
        let dy = b.y - a.y;
        let r = Pt { x: a.x + div_trunc(dx * d, len), y: a.y + div_trunc(dy * d, len) };
        proof {
            assert(r@ == ginterp(a@, b@, d as int));
        }
        r
    }
}

/// The arc length of a polyline splits at its first vertex.
pub proof fn lemma_pl_len_to_skip(s: Seq<GPt>, k: int)
    requires
        1 <= k < s.len(),
    ensures
        pl_len_to(s, k) == gseg_len(s[0], s[1]) + pl_len_to(s.skip(1), k - 1),
    decreases k,
{
    if k == 1 {
        assert(pl_len_to(s, 1) == pl_len_to(s, 0) + gseg_len(s[0], s[1]));
        assert(pl_len_to(s, 0) == 0);
        assert(pl_len_to(s.skip(1), 0) == 0);
    } else {
        lemma_pl_len_to_skip(s, k - 1);
        assert(s.skip(1)[k - 2] == s[k - 1]);
        assert(s.skip(1)[k - 1] == s[k as int]);
        assert(pl_len_to(s, k) == pl_len_to(s, k - 1) + gseg_len(s[k - 1], s[k as int]));
        assert(pl_len_to(s.skip(1), k - 1) == pl_len_to(s.skip(1), k - 2) + gseg_len(
            s.skip(1)[k - 2],
            s.skip(1)[k - 1],
        ));
    }
}

/// The arc length of a polyline is its first segment plus the rest.
pub proof fn lemma_pl_len_skip(s: Seq<GPt>)
    requires
        s.len() >= 2,
    ensures
        pl_len(s) == gseg_len(s[0], s[1]) + pl_len(s.skip(1)),
{
    if s.len() == 2 {
        assert(pl_len(s.skip(1)) == pl_len_to(s.skip(1), 0) == 0);
        assert(pl_len(s) == pl_len_to(s, 1) == pl_len_to(s, 0) + gseg_len(s[0], s[1]));
    } else {
        lemma_pl_len_to_skip(s, s.len() - 1);
    }
}

/// The points of the slice of a polyline from arc distance 0 to `b`: the
/// start point, the vertices passed, and the interpolated end point.
pub open spec fn slice_to(s: Seq<GPt>, b: int) -> Seq<GPt>
    recommends
        s.len() >= 2,
    decreases s.len(),
{
    let l0 = gseg_len(s[0], s[1]);
    if s.len() <= 2 || b <= l0 {
        seq![s[0], ginterp(s[0], s[1], b)]
    } else {
        seq![s[0]] + slice_to(s.skip(1), b - l0)
    }
}

/// The points of the slice of a polyline between arc distances `a` and `b`.
pub open spec fn slice_pts(s: Seq<GPt>, a: int, b: int) -> Seq<GPt>
    recommends
        s.len() >= 2,
        0 <= a < b <= pl_len(s),
    decreases s.len(),
{
    let l0 = gseg_len(s[0], s[1]);
    if s.len() <= 2 || b <= l0 {
        seq![ginterp(s[0], s[1], a), ginterp(s[0], s[1], b)]
    } else if a >= l0 {
        slice_pts(s.skip(1), a - l0, b - l0)
    } else {
        seq![ginterp(s[0], s[1], a)] + slice_to(s.skip(1), b - l0)
    }
}

/// Structure of `slice_to`: its length and its bounds.
pub proof fn lemma_slice_to_props(s: Seq<GPt>, b: int, bb: int)
    requires
        s.len() >= 2,
        pts_in_box(s, bb),
        0 <= bb <= PT_BOUND as int,
        0 <= b <= pl_len(s),
    ensures
        2 <= slice_to(s, b).len() <= s.len(),
        pts_in_box(slice_to(s, b), bb),
    decreases s.len(),
{
    let l0 = gseg_len(s[0], s[1]);
    lemma_pl_len_skip(s);
    lemma_dist_sq_bounds(s[0], s[1]);
    lemma_sqrt_floor_props(gdist_sq(s[0], s[1]));
    if s.len() <= 2 || b <= l0 {
        if b <= l0 {
            lemma_interp_in_box(s[0], s[1], b, bb);
        } else {
            lemma_pl_len_bounds(s.skip(1));
            assert(pts_in_box(s.skip(1), PT_BOUND as int)) by {
                assert(forall|i: int|
                    0 <= i < s.skip(1).len() ==> #[trigger] s.skip(1)[i] == s[i + 1]);
            }
            lemma_interp_in_box(s[0], s[1], b, bb);
        }
        let r = slice_to(s, b);
        assert(r[0] == s[0] && r[1] == ginterp(s[0], s[1], b));
        assert(forall|i: int| 0 <= i < r.len() ==> in_box(#[trigger] r[i], bb));
    } else {
        assert(pts_in_box(s.skip(1), bb)) by {
            assert(forall|i: int| 0 <= i < s.skip(1).len() ==> #[trigger] s.skip(1)[i] == s[i + 1]);
        }
        assert(pts_in_box(s.skip(1), PT_BOUND as int)) by {
            assert(forall|i: int| 0 <= i < s.skip(1).len() ==> #[trigger] s.skip(1)[i] == s[i + 1]);
        }
        lemma_slice_to_props(s.skip(1), b - l0, bb);
        let r = slice_to(s, b);
        let rest = slice_to(s.skip(1), b - l0);
        assert(forall|i: int| 0 <= i < r.len() ==> in_box(#[trigger] r[i], bb)) by {
            assert(r[0] == s[0]);
            assert(forall|i: int| 1 <= i < r.len() ==> #[trigger] r[i] == rest[i - 1]);
            assert(forall|i: int| 0 <= i < rest.len() ==> in_box(#[trigger] rest[i], bb));
        }
    }
}

/// Structure of `slice_pts`: its length and its bounds.
pub proof fn lemma_slice_pts_props(s: Seq<GPt>, a: int, b: int, bb: int)
    requires
        s.len() >= 2,
        pts_in_box(s, bb),
        0 <= bb <= PT_BOUND as int,
        0 <= a < b <= pl_len(s),
    ensures
        2 <= slice_pts(s, a, b).len() <= s.len(),
        pts_in_box(slice_pts(s, a, b), bb),
    decreases s.len(),
{
    let l0 = gseg_len(s[0], s[1]);
    lemma_pl_len_skip(s);
    lemma_dist_sq_bounds(s[0], s[1]);
    lemma_sqrt_floor_props(gdist_sq(s[0], s[1]));
    assert(pts_in_box(s.skip(1), bb)) by {
        assert(forall|i: int| 0 <= i < s.skip(1).len() ==> #[trigger] s.skip(1)[i] == s[i + 1]);
    }
    assert(pts_in_box(s.skip(1), PT_BOUND as int)) by {
        assert(forall|i: int| 0 <= i < s.skip(1).len() ==> #[trigger] s.skip(1)[i] == s[i + 1]);
    }
    if s.len() <= 2 || b <= l0 {
        if s.len() > 2 && b > l0 {
            lemma_pl_len_bounds(s.skip(1));
        }
        lemma_interp_in_box(s[0], s[1], a, bb);
        lemma_interp_in_box(s[0], s[1], b, bb);
        let r = slice_pts(s, a, b);
        assert(forall|i: int| 0 <= i < r.len() ==> in_box(#[trigger] r[i], bb));
    } else if a >= l0 {
        lemma_slice_pts_props(s.skip(1), a - l0, b - l0, bb);
    } else {
        lemma_interp_in_box(s[0], s[1], a, bb);
        lemma_slice_to_props(s.skip(1), b - l0, bb);
        let r = slice_pts(s, a, b);
        let rest = slice_to(s.skip(1), b - l0);
        assert(forall|i: int| 0 <= i < r.len() ==> in_box(#[trigger] r[i], bb)) by {
            assert(r[0] == ginterp(s[0], s[1], a));
            assert(forall|i: int| 1 <= i < r.len() ==> #[trigger] r[i] == rest[i - 1]);
            assert(forall|i: int| 0 <= i < rest.len() ==> in_box(#[trigger] rest[i], bb));
        }
    }
}

/// Executable `slice_to`, from vertex index `i` on.
fn slice_to_rec(pts: &Vec<Pt>, i: usize, b: i64) -> (r: Vec<Pt>)
    requires
        i + 2 <= pts.len(),
        pts.len() <= MAX_PTS,
        pts_in_box(pts_view(pts@), WORK_BOUND as int),
        0 <= b <= pl_len(pts_view(pts@).skip(i as int)),
    ensures
        pts_view(r@) == slice_to(pts_view(pts@).skip(i as int), b as int),
        2 <= r@.len() <= pts.len() - i,
    decreases pts.len() - i,
{
    let ghost s = pts_view(pts@).skip(i as int);
    proof {
        assert(forall|j: int| 0 <= j < s.len() ==> #[trigger] s[j] == pts_view(pts@)[i + j]);
        assert(pts_in_box(s, WORK_BOUND as int));
        lemma_pl_len_skip(s);
        lemma_pl_len_bounds(s);
        lemma_pl_len_bounds(s.skip(1));
        assert(s.skip(1) =~= pts_view(pts@).skip(i + 1));
    }
    let l0 = seg_len_e(pts[i], pts[i + 1]);
    if pts.len() - i <= 2 || b <= l0 {
        proof {
            if !(pts.len() - i <= 2 || b <= l0) {
                assert(false);
            }
            if b > l0 {
                assert(pts.len() - i <= 2);
                assert(pl_len(s) == l0 + pl_len(s.skip(1)));
                assert(s.len() == 2);
                assert(pl_len(s.skip(1)) == 0);
                assert(false);
            }
        }
        let p = interp_e(pts[i], pts[i + 1], b);
        let mut out: Vec<Pt> = Vec::new();
        out.push(pts[i]);
        out.push(p);
        proof {
            assert(pts_view(out@) =~= slice_to(s, b as int));
        }
        out
    } else {
        let mut rest = slice_to_rec(pts, i + 1, b - l0);
        let mut out: Vec<Pt> = Vec::new();
        out.push(pts[i]);
        out.append(&mut rest);
        proof {
            assert(pts_view(out@) =~= slice_to(s, b as int));
        }
        out
    }
}

/// Executable `slice_pts`, from vertex index `i` on.
fn slice_pts_rec(pts: &Vec<Pt>, i: usize, a: i64, b: i64) -> (r: Vec<Pt>)
    requires
        i + 2 <= pts.len(),
        pts.len() <= MAX_PTS,
        pts_in_box(pts_view(pts@), WORK_BOUND as int),
        0 <= a < b <= pl_len(pts_view(pts@).skip(i as int)),
    ensures
        pts_view(r@) == slice_pts(pts_view(pts@).skip(i as int), a as int, b as int),
        2 <= r@.len() <= pts.len() - i,
    decreases pts.len() - i,
{
    let ghost s = pts_view(pts@).skip(i as int);
    proof {
        assert(forall|j: int| 0 <= j < s.len() ==> #[trigger] s[j] == pts_view(pts@)[i + j]);
        assert(pts_in_box(s, WORK_BOUND as int));
        lemma_pl_len_skip(s);
        lemma_pl_len_bounds(s);
        lemma_pl_len_bounds(s.skip(1));
        assert(s.skip(1) =~= pts_view(pts@).skip(i + 1));
    }
    let l0 = seg_len_e(pts[i], pts[i + 1]);
    if pts.len() - i <= 2 || b <= l0 {
        proof {
            if b > l0 {
                assert(pts.len() - i <= 2);
                assert(s.len() == 2);
                assert(pl_len(s.skip(1)) == 0);
                assert(false);
            }
        }
        let pa = interp_e(pts[i], pts[i + 1], a);
        let pb = interp_e(pts[i], pts[i + 1], b);
        let mut out: Vec<Pt> = Vec::new();
        out.push(pa);
        out.push(pb);
        proof {
            assert(pts_view(out@) =~= slice_pts(s, a as int, b as int));
        }
        out
    } else if a >= l0 {
        let r = slice_pts_rec(pts, i + 1, a - l0, b - l0);
        proof {
            assert(pts_view(r@) == slice_pts(s, a as int, b as int));
        }
        r
    } else {
        let pa = interp_e(pts[i], pts[i + 1], a);
        let mut rest = slice_to_rec(pts, i + 1, b - l0);
        let mut out: Vec<Pt> = Vec::new();
        out.push(pa);
        out.append(&mut rest);
        proof {
            assert(pts_view(out@) =~= slice_pts(s, a as int, b as int));
        }
        out
    }
}

impl PolyLine {
    /// The part of the polyline between arc distances `a` and `b`.
    pub fn exact_slice(&self, a: i64, b: i64) -> (r: PolyLine)
        requires
            self.wf(),
            pts_in_box(self@, WORK_BOUND as int),
            0 <= a < b <= pl_len(self@),
        ensures
            r@ == slice_pts(self@, a as int, b as int),
            r.wf(),
            pts_in_box(r@, WORK_BOUND as int),
    {
        proof {
            assert(self@.skip(0) =~= self@);
            lemma_slice_pts_props(self@, a as int, b as int, WORK_BOUND as int);
        }
        let out = slice_pts_rec(&self.pts, 0, a, b);
        PolyLine { pts: out }
    }
}

// ---------------------------------------------------------------------------
// Polygons and thickening
// ---------------------------------------------------------------------------

/// A sequence reversed.
pub open spec fn grev(s: Seq<GPt>) -> Seq<GPt> {
    Seq::new(s.len(), |i: int| s[s.len() - 1 - i])
}

/// A polygon: a loop of points. The loop may touch itself; a triangulating
/// renderer downstream is expected to cope, as long as the loop is not
/// degenerate.
#[derive(Debug, PartialEq)]
pub struct Polygon {
    pub pts: Vec<Pt>,
}

impl View for Polygon {
    type V = Seq<GPt>;

    open spec fn view(&self) -> Seq<GPt> {
        pts_view(self.pts@)
    }
}

/// Well-formedness of a polygon's view.
pub open spec fn poly_wf(s: Seq<GPt>) -> bool {
    &&& 3 <= s.len() <= 2 * MAX_PTS + 8
    &&& pts_in_box(s, PT_BOUND as int)
}

impl Polygon {
    pub open spec fn wf(self) -> bool {
        poly_wf(self@)
    }

    /// Builds a polygon from a point loop. The loop need not be a simple
    /// ring: self-touching loops are accepted.
    pub fn from_loop(pts: Vec<Pt>) -> (r: Polygon)
        requires
            poly_wf(pts_view(pts@)),
        ensures
            r@ == pts_view(pts@),
            r.wf(),
    {
        Polygon { pts }
    }
}

impl Polygon {
    /// An exact copy of the polygon.
    pub fn clone_poly(&self) -> (r: Polygon)
        ensures
            r.pts@ == self.pts@,
            r@ == self@,
    {
        let mut pts: Vec<Pt> = Vec::new();
        let n = self.pts.len();
        let mut k: usize = 0;
        while k < n
            invariant
                n == self.pts@.len(),
                pts@.len() == k,
                k <= n,
                forall|j: int| 0 <= j < k ==> pts@[j] == self.pts@[j],
            decreases n - k,
        {
            pts.push(self.pts[k]);
            k = k + 1;
        }
        proof {
            assert(pts@ =~= self.pts@);
        }
        Polygon { pts }
    }
}

/// The loop of a polyline thickened to width `w`: its left edge, then its
/// right edge walked backwards.
pub open spec fn thick_loop(s: Seq<GPt>, w: int) -> Seq<GPt> {
    shift_pl(s, w / 2) + grev(shift_pl(s, -(w / 2)))
}

impl PolyLine {
    /// Thickens the polyline into a polygon of width `w` about its center.
    /// Declines exactly when a segment or the width is degenerate.
    pub fn make_polygons(&self, w: i64) -> (r: Option<Polygon>)
        requires
            self.wf(),
            pts_in_box(self@, WORK_BOUND as int),
            0 < w <= MAX_SHIFT,
        ensures
            r is Some <==> clean(self@) && w > EPSILON_MM,
            r is Some ==> r->Some_0@ == thick_loop(self@, w as int) && r->Some_0.wf(),
    {
        let ghost s = self@;
        if w <= EPSILON_MM {
            return None;
        }
        let half = w / 2;
        let left = match self.shift_either(half) {
            Some(pl) => pl,
            None => {
                return None;
            },
        };
        let right = match self.shift_either(-half) {
            Some(pl) => pl,
            None => {
                proof {
                    assert(false);
                }
                return None;
            },
        };
        let mut out: Vec<Pt> = left.pts;
        let n = right.pts.len();
        let mut j: usize = 0;
        while j < n
            invariant
                n == right.pts@.len(),
                n == s.len(),
                out@.len() == s.len() + j,
                j <= n,
                pts_view(right.pts@) == shift_pl(s, -(w as int / 2)),
                pts_view(out@).take(s.len() as int) =~= shift_pl(s, w as int / 2),
                forall|i: int|
                    s.len() <= i < out@.len() ==> #[trigger] pts_view(out@)[i] == grev(
                        shift_pl(s, -(w as int / 2)),
                    )[i - s.len()],
            decreases n - j,
        {
            let ghost prev = out@;
            out.push(right.pts[n - 1 - j]);
            proof {
                assert(pts_view(out@) =~= pts_view(prev).push(
                    right.pts@[n - 1 - j as int]@,
                ));
                assert(pts_view(out@).take(s.len() as int) =~= pts_view(prev).take(
                    s.len() as int,
                ));
                assert(grev(shift_pl(s, -(w as int / 2)))[j as int] == shift_pl(
                    s,
                    -(w as int / 2),
                )[n - 1 - j as int]);
            }
            j = j + 1;
        }
        proof {
            assert(pts_view(out@) =~= thick_loop(s, w as int));
            lemma_shift_pl_box(s, w as int / 2, WORK_BOUND as int);
            lemma_shift_pl_box(s, -(w as int / 2), WORK_BOUND as int);
            assert(pts_in_box(pts_view(out@), PT_BOUND as int)) by {
                assert(forall|i: int|
                    0 <= i < s.len() ==> pts_view(out@)[i] == #[trigger] shift_pl(
                        s,
                        w as int / 2,
                    )[i]);
                assert(forall|i: int|
                    s.len() <= i < pts_view(out@).len() ==> pts_view(out@)[i] == #[trigger] shift_pl(
                        s,
                        -(w as int / 2),
                    )[s.len() - 1 - (i - s.len())]);
            }
        }
        Some(Polygon { pts: out })
    }
}

// ---------------------------------------------------------------------------
// Removing duplicate adjacent points
// ---------------------------------------------------------------------------

/// `s` with runs of equal adjacent points collapsed.
pub open spec fn dedup_adj(s: Seq<GPt>) -> Seq<GPt>
    decreases s.len(),
{
    if s.len() <= 1 {
        s
    } else if s[0] == s[1] {
        dedup_adj(s.skip(1))
    } else {
        seq![s[0]] + dedup_adj(s.skip(1))
    }
}

/// Deduplication keeps length bounds and boxes.
pub proof fn lemma_dedup_adj_props(s: Seq<GPt>, bb: int)
    requires
        pts_in_box(s, bb),
    ensures
        dedup_adj(s).len() <= s.len(),
        pts_in_box(dedup_adj(s), bb),
        s.len() >= 1 ==> dedup_adj(s).len() >= 1,
    decreases s.len(),
{
    if s.len() <= 1 {
    } else {
        assert(pts_in_box(s.skip(1), bb)) by {
            assert(forall|i: int| 0 <= i < s.skip(1).len() ==> #[trigger] s.skip(1)[i] == s[i + 1]);
        }
        lemma_dedup_adj_props(s.skip(1), bb);
        if s[0] != s[1] {
            let r = dedup_adj(s);
            let rest = dedup_adj(s.skip(1));
            assert(forall|i: int| 0 <= i < r.len() ==> in_box(#[trigger] r[i], bb)) by {
                assert(r[0] == s[0]);
                assert(forall|i: int| 1 <= i < r.len() ==> #[trigger] r[i] == rest[i - 1]);
                assert(forall|i: int| 0 <= i < rest.len() ==> in_box(#[trigger] rest[i], bb));
            }
        }
    }
}

/// Executable deduplication of the tail of `pts` from index `i` on.
fn dedup_rec(pts: &Vec<Pt>, i: usize) -> (r: Vec<Pt>)
    requires
        i < pts.len(),
        pts.len() <= 4 * MAX_PTS,
    ensures
        pts_view(r@) == dedup_adj(pts_view(pts@).skip(i as int)),
        r@.len() <= pts.len() - i,
        1 <= r@.len(),
    decreases pts.len() - i,
{
    let ghost s = pts_view(pts@).skip(i as int);
    proof {
        assert(forall|j: int| 0 <= j < s.len() ==> #[trigger] s[j] == pts_view(pts@)[i + j]);
        assert(s.skip(1) =~= pts_view(pts@).skip(i + 1));
    }
    if i + 1 >= pts.len() {
        let mut out: Vec<Pt> = Vec::new();
        out.push(pts[i]);
        proof {
            assert(pts_view(out@) =~= dedup_adj(s));
        }
        out
    } else if pts[i].x == pts[i + 1].x && pts[i].y == pts[i + 1].y {
        let r = dedup_rec(pts, i + 1);
        proof {
            assert(s[0] == s[1]);
            assert(pts_view(r@) == dedup_adj(s));
        }
        r
    } else {
        let rest = dedup_rec(pts, i + 1);
        let mut out: Vec<Pt> = Vec::new();
        out.push(pts[i]);
        let mut j: usize = 0;
        let n = rest.len();
        while j < n
            invariant
                n == rest@.len(),
                out@.len() == 1 + j,
                j <= n,
                out@[0] == pts@[i as int],
                forall|k: int| 0 <= k < j ==> out@[k + 1] == rest@[k],
            decreases n - j,
        {
            out.push(rest[j]);
            j = j + 1;
        }
        proof {
            assert(s[0] != s[1]);
            assert(pts_view(out@) =~= seq![s[0]] + dedup_adj(s.skip(1)));
        }
        out
    }
}

impl PolyLine {
    /// Builds a polyline from a point list, collapsing runs of equal
    /// adjacent points. Declines when fewer than two distinct points remain.
    pub fn deduping_new(pts: Vec<Pt>) -> (r: Option<PolyLine>)
        requires
            pts@.len() >= 1,
            pts@.len() <= 4 * MAX_PTS,
            pts_in_box(pts_view(pts@), PT_BOUND as int),
        ensures
            r is Some <==> 2 <= dedup_adj(pts_view(pts@)).len() <= MAX_PTS,
            r is Some ==> r->Some_0@ == dedup_adj(pts_view(pts@)) && r->Some_0.wf(),
    {
        proof {
            assert(pts_view(pts@).skip(0) =~= pts_view(pts@));
            lemma_dedup_adj_props(pts_view(pts@), PT_BOUND as int);
        }
        let out = dedup_rec(&pts, 0);
        if out.len() < 2 || out.len() > MAX_PTS {
            return None;
        }
        Some(PolyLine { pts: out })
    }
}

// ---------------------------------------------------------------------------
// Rings: closed loops checked for self-intersection
// ---------------------------------------------------------------------------

/// Twice the signed area of the triangle `a b c`: positive on one side,
/// negative on the other, zero when collinear.
pub open spec fn cross3(a: GPt, b: GPt, c: GPt) -> int {
    (b.x - a.x) * (c.y - a.y) - (b.y - a.y) * (c.x - a.x)
}

/// Executable orientation test.
pub fn cross3_e(a: Pt, b: Pt, c: Pt) -> (r: i64)
    requires
        a.wf(),
        b.wf(),
        c.wf(),
    ensures
        r == cross3(a@, b@, c@),
{
    proof {
        lemma_mul_bound(b@.x - a@.x, c@.y - a@.y, 40_000_000, 40_000_000);
        lemma_mul_bound(b@.y - a@.y, c@.x - a@.x, 40_000_000, 40_000_000);
    }
    (b.x - a.x) * (c.y - a.y) - (b.y - a.y) * (c.x - a.x)
}

/// The open segments `a-b` and `c-d` properly cross: each segment's
/// endpoints lie strictly on opposite sides of the other's line.
pub open spec fn proper_cross(a: GPt, b: GPt, c: GPt, d: GPt) -> bool {
    let o1 = cross3(a, b, c);
    let o2 = cross3(a, b, d);
    let o3 = cross3(c, d, a);
    let o4 = cross3(c, d, b);
    ((o1 > 0 && o2 < 0) || (o1 < 0 && o2 > 0)) && ((o3 > 0 && o4 < 0) || (o3 < 0 && o4 > 0))
}

/// Executable proper-crossing test.
pub fn proper_cross_e(a: Pt, b: Pt, c: Pt, d: Pt) -> (r: bool)
    requires
        a.wf(),
        b.wf(),
        c.wf(),
        d.wf(),
    ensures
        r == proper_cross(a@, b@, c@, d@),
{
    let o1 = cross3_e(a, b, c);
    let o2 = cross3_e(a, b, d);
    let o3 = cross3_e(c, d, a);
    let o4 = cross3_e(c, d, b);
    (((o1 > 0 && o2 < 0) || (o1 < 0 && o2 > 0)) && ((o3 > 0 && o4 < 0) || (o3 < 0 && o4 > 0)))
}

/// A closed loop: first and last points coincide.
#[derive(Debug, PartialEq)]
pub struct Ring {
    pub pts: Vec<Pt>,
}

impl View for Ring {
    type V = Seq<GPt>;

    open spec fn view(&self) -> Seq<GPt> {
        pts_view(self.pts@)
    }
}

/// Basic well-formedness of a ring's view: closed, at least a triangle, and
/// in bounds.
pub open spec fn ring_wf(s: Seq<GPt>) -> bool {
    &&& 4 <= s.len() <= MAX_PTS
    &&& s[0] == s[s.len() - 1]
    &&& pts_in_box(s, PT_BOUND as int)
}

/// Edges `i` and `j` of the closed loop `s` (each edge `k` runs from `s[k]`
/// to `s[k + 1]`) are adjacent around the loop.
pub open spec fn ring_edges_adjacent(s: Seq<GPt>, i: int, j: int) -> bool {
    j == i + 1 || (i == 0 && j == s.len() - 2)
}

/// A strict ring: well formed, no repeated vertex but the closing one, and
/// no two non-adjacent edges properly crossing.
pub open spec fn valid_ring(s: Seq<GPt>) -> bool {
    &&& ring_wf(s)
    &&& forall|i: int, j: int| 0 <= i < j < s.len() - 1 ==> s[i] != s[j]
    &&& forall|i: int, j: int|
        0 <= i < j < s.len() - 1 && !ring_edges_adjacent(s, i, j) ==> !#[trigger] proper_cross(
            s[i],
            s[i + 1],
            s[j],
            s[j + 1],
        )
}

impl Ring {
    pub open spec fn wf(self) -> bool {
        ring_wf(self@)
    }

    /// Builds a strict ring from a closed point loop. Declines exactly when
    /// the loop is not a valid ring: not closed, too small, out of bounds,
    /// a repeated vertex, or a pair of properly crossing edges.
    #[verifier::loop_isolation(false)]
    pub fn new(pts: Vec<Pt>) -> (r: Option<Ring>)
        ensures
            r is Some <==> valid_ring(pts_view(pts@)),
            r is Some ==> r->Some_0@ == pts_view(pts@) && r->Some_0.wf(),
    {
        let ghost s = pts_view(pts@);
        let n = pts.len();
        if n < 4 || n > MAX_PTS {
            return None;
        }
        if !(pts[0].x == pts[n - 1].x && pts[0].y == pts[n - 1].y) {
            return None;
        }
        let mut i: usize = 0;
        while i < n
            invariant
                n == pts@.len(),
                s == pts_view(pts@),
                i <= n,
                forall|k: int| 0 <= k < i ==> in_box(#[trigger] s[k], PT_BOUND as int),
            decreases n - i,
        {
            let p = pts[i];
            if p.x < -PT_BOUND || p.x > PT_BOUND || p.y < -PT_BOUND || p.y > PT_BOUND {
                proof {
                    assert(!in_box(s[i as int], PT_BOUND as int));
                }
                return None;
            }
            i = i + 1;
        }
        let mut i: usize = 0;
        while i < n - 1
            invariant
                n == pts@.len(),
                s == pts_view(pts@),
                4 <= n <= MAX_PTS,
                pts_in_box(s, PT_BOUND as int),
                i <= n - 1,
                forall|k: int, j: int| 0 <= k < j < n - 1 && k < i ==> s[k] != s[j],
            decreases n - i,
        {
            let mut j: usize = i + 1;
            while j < n - 1
                invariant
                    n == pts@.len(),
                    s == pts_view(pts@),
                    4 <= n <= MAX_PTS,
                    pts_in_box(s, PT_BOUND as int),
                    i < j <= n - 1,
                    i < n - 1,
                    forall|k: int| i < k < j ==> s[i as int] != s[k],
                decreases n - j,
            {
                if pts[i].x == pts[j].x && pts[i].y == pts[j].y {
                    proof {
                        assert(s[i as int] == s[j as int]);
                    }
                    return None;
                }
                j = j + 1;
            }
            i = i + 1;
        }
        let mut i: usize = 0;
        while i < n - 1
            invariant
                n == pts@.len(),
                s == pts_view(pts@),
                4 <= n <= MAX_PTS,
                pts_in_box(s, PT_BOUND as int),
                i <= n - 1,
                forall|k: int, j: int|
                    0 <= k < j < n - 1 && k < i && !ring_edges_adjacent(s, k, j)
                        ==> !#[trigger] proper_cross(s[k], s[k + 1], s[j], s[j + 1]),
            decreases n - i,
        {
            let mut j: usize = i + 2;
            while j < n - 1
                invariant
                    n == pts@.len(),
                    s == pts_view(pts@),
                    4 <= n <= MAX_PTS,
                    pts_in_box(s, PT_BOUND as int),
                    i + 2 <= j <= n,
                    i < n - 1,
                    forall|k: int|
                        i + 2 <= k < j && !ring_edges_adjacent(s, i as int, k)
                            ==> !#[trigger] proper_cross(
                            s[i as int],
                            s[i + 1],
                            s[k],
                            s[k + 1],
                        ),
                decreases n - j,
            {
                proof {
                    assert(in_box(s[i as int], PT_BOUND as int));
                    assert(in_box(s[i as int + 1], PT_BOUND as int));
                    assert(in_box(s[j as int], PT_BOUND as int));
                    assert(in_box(s[j as int + 1], PT_BOUND as int));
                }
                if !(i == 0 && j == n - 2) {
                    if proper_cross_e(pts[i], pts[i + 1], pts[j], pts[j + 1]) {
                        proof {
                            assert(!ring_edges_adjacent(s, i as int, j as int));
                            assert(proper_cross(s[i as int], s[i as int + 1], s[j as int], s[j as int + 1]));
                        }
                        return None;
                    }
                }
                j = j + 1;
            }
            i = i + 1;
        }
        Some(Ring { pts })
    }

    /// A copy of the ring as a polygon loop.
    pub fn to_polygon(&self) -> (r: Polygon)
        requires
            self.wf(),
        ensures
            r@ == self@,
            r.wf(),
    {
        let mut pts: Vec<Pt> = Vec::new();
        let n = self.pts.len();
        let mut k: usize = 0;
        while k < n
            invariant
                n == self.pts@.len(),
                pts@.len() == k,
                k <= n,
                forall|j: int| 0 <= j < k ==> pts@[j] == self.pts@[j],
            decreases n - k,
        {
            pts.push(self.pts[k]);
            k = k + 1;
        }
        proof {
            assert(pts@ =~= self.pts@);
            assert(pts_view(pts@) =~= self@);
        }
        Polygon { pts }
    }

    /// The ring as a polygon loop.
    pub fn into_polygon(self) -> (r: Polygon)
        requires
            self.wf(),
        ensures
            r@ == self@,
            r.wf(),
    {
        Polygon { pts: self.pts }
    }
}

// ---------------------------------------------------------------------------
// Polygon area
// ---------------------------------------------------------------------------

/// Partial shoelace sum over the first `k` edges of the loop.
pub open spec fn shoelace_to(s: Seq<GPt>, k: int) -> int
    decreases k,
{
    if k <= 0 {
        0
    } else {
        shoelace_to(s, k - 1) + (s[k - 1].x * s[k].y - s[k].x * s[k - 1].y)
    }
}

/// Twice the (absolute) area of the polygon loop `s`, by the shoelace
/// formula, including the closing edge from last point back to first.
pub open spec fn area2(s: Seq<GPt>) -> int {
    abs_i(
        shoelace_to(s, s.len() - 1) + (s[s.len() - 1].x * s[0].y - s[0].x * s[s.len() - 1].y),
    )
}

/// The partial shoelace sums of an in-bounds loop are bounded.
pub proof fn lemma_shoelace_bounds(s: Seq<GPt>, k: int)
    requires
        pts_in_box(s, PT_BOUND as int),
        0 <= k < s.len(),
    ensures
        -k * 800_000_000_000_000 <= shoelace_to(s, k) <= k * 800_000_000_000_000,
    decreases k,
{
    if k > 0 {
        lemma_shoelace_bounds(s, k - 1);
        lemma_mul_bound(s[k - 1].x, s[k as int].y, PT_BOUND as int, PT_BOUND as int);
        lemma_mul_bound(s[k as int].x, s[k - 1].y, PT_BOUND as int, PT_BOUND as int);
    }
}

impl Polygon {
    /// Twice the enclosed area of the polygon loop.
    pub fn area2_e(&self) -> (r: i64)
        requires
            self.wf(),
        ensures
            r == area2(self@),
            r >= 0,
    {
        let ghost s = self@;
        let n = self.pts.len();
        let mut acc: i64 = 0;
        let mut k: usize = 1;
        proof {
            lemma_shoelace_bounds(s, 0);
        }
        while k < n
            invariant
                n == self.pts@.len(),
                s == self@,
                self.wf(),
                1 <= k <= n,
                acc == shoelace_to(s, k - 1),
                -(k - 1) * 800_000_000_000_000 <= acc <= (k - 1) * 800_000_000_000_000,
            decreases n - k,
        {
            proof {
                lemma_shoelace_bounds(s, k as int);
                assert(in_box(s[k as int - 1], PT_BOUND as int));
                assert(in_box(s[k as int], PT_BOUND as int));
                lemma_mul_bound(s[k - 1].x, s[k as int].y, PT_BOUND as int, PT_BOUND as int);
                lemma_mul_bound(s[k as int].x, s[k - 1].y, PT_BOUND as int, PT_BOUND as int);
            }
            let a = self.pts[k - 1];
            let b = self.pts[k];
            acc = acc + (a.x * b.y - b.x * a.y);
            k = k + 1;
        }
        proof {
            assert(in_box(s[n - 1], PT_BOUND as int));
            assert(in_box(s[0], PT_BOUND as int));
            lemma_mul_bound(s[n - 1].x, s[0].y, PT_BOUND as int, PT_BOUND as int);
            lemma_mul_bound(s[0].x, s[n - 1].y, PT_BOUND as int, PT_BOUND as int);
        }
        let a = self.pts[n - 1];
        let b = self.pts[0];
        let total = acc + (a.x * b.y - b.x * a.y);
        if total >= 0 {
            total
        } else {
            -total
        }
    }
}

// ---------------------------------------------------------------------------
// Octagons, arrows, dashed lines
// ---------------------------------------------------------------------------

/// Cosine of `22.5 + 45 k` degrees, scaled by `DIR_UNIT`.
pub open spec fn oct_cos(k: int) -> int {
    if k == 0 {
        9239
    } else if k == 1 {
        3827
    } else if k == 2 {
        -3827
    } else if k == 3 {
        -9239
    } else if k == 4 {
        -9239
    } else if k == 5 {
        -3827
    } else if k == 6 {
        3827
    } else {
        9239
    }
}

/// Sine of `22.5 + 45 k` degrees, scaled by `DIR_UNIT`.
pub open spec fn oct_sin(k: int) -> int {
    if k == 0 {
        3827
    } else if k == 1 {
        9239
    } else if k == 2 {
        9239
    } else if k == 3 {
        3827
    } else if k == 4 {
        -3827
    } else if k == 5 {
        -9239
    } else if k == 6 {
        -9239
    } else {
        -3827
    }
}

/// The `k`-th vertex of a regular octagon of the given radius around `c`,
/// oriented so that one edge faces the heading `f`.
pub open spec fn octagon_pt(c: GPt, radius: int, f: GPt, k: int) -> GPt {
    let rx = div_t(f.x * oct_cos(k) - f.y * oct_sin(k), DIR_UNIT as int);
    let ry = div_t(f.x * oct_sin(k) + f.y * oct_cos(k), DIR_UNIT as int);
    GPt { x: c.x + div_t(radius * rx, DIR_UNIT as int), y: c.y + div_t(radius * ry, DIR_UNIT as int) }
}

/// The vertex loop of the octagon.
pub open spec fn octagon_loop(c: GPt, radius: int, f: GPt) -> Seq<GPt> {
    Seq::new(8, |k: int| octagon_pt(c, radius, f, k))
}

/// Rotation table entry for the `k`-th octagon vertex.
fn oct_trig(k: usize) -> (r: (i64, i64))
    requires
        k < 8,
    ensures
        r.0 == oct_cos(k as int),
        r.1 == oct_sin(k as int),
{
    if k == 0 {
        (9239, 3827)
    } else if k == 1 {
        (3827, 9239)
    } else if k == 2 {
        (-3827, 9239)
    } else if k == 3 {
        (-9239, 3827)
    } else if k == 4 {
        (-9239, -3827)
    } else if k == 5 {
        (-3827, -9239)
    } else if k == 6 {
        (3827, -9239)
    } else {
        (9239, -3827)
    }
}

/// Builds a regular eight-sided polygon of the given radius around `center`,
/// oriented so one edge faces the heading `facing`.
pub fn make_octagon(center: Pt, radius: i64, facing: Dir) -> (r: Polygon)
    requires
        in_box(center@, WORK_BOUND as int),
        0 < radius <= MAX_PROJECT,
        facing.wf(),
    ensures
        r@ == octagon_loop(center@, radius as int, facing@),
        r.wf(),
{
    let mut out: Vec<Pt> = Vec::new();
    let mut k: usize = 0;
    while k < 8
        invariant
            in_box(center@, WORK_BOUND as int),
            0 < radius <= MAX_PROJECT,
            facing.wf(),
            out@.len() == k,
            k <= 8,
            forall|i: int|
                0 <= i < k ==> #[trigger] pts_view(out@)[i] == octagon_pt(
                    center@,
                    radius as int,
                    facing@,
                    i,
                ),
            pts_in_box(pts_view(out@), PT_BOUND as int),
        decreases 8 - k,
    {
        let (cs, sn) = oct_trig(k);
        proof {
            lemma_mul_bound(facing@.x, cs as int, DIR_UNIT as int, DIR_UNIT as int);
            lemma_mul_bound(facing@.y, sn as int, DIR_UNIT as int, DIR_UNIT as int);
            lemma_mul_bound(facing@.x, sn as int, DIR_UNIT as int, DIR_UNIT as int);
            lemma_mul_bound(facing@.y, cs as int, DIR_UNIT as int, DIR_UNIT as int);
            lemma_div_t_bound(
                facing@.x * cs - facing@.y * sn,
                DIR_UNIT as int,
                2 * DIR_UNIT as int,
            );
            lemma_div_t_bound(
                facing@.x * sn + facing@.y * cs,
                DIR_UNIT as int,
                2 * DIR_UNIT as int,
            );
        }
        let rx = div_trunc(facing.x * cs - facing.y * sn, DIR_UNIT);
        let ry = div_trunc(facing.x * sn + facing.y * cs, DIR_UNIT);
        proof {
            lemma_mul_bound(radius as int, rx as int, MAX_PROJECT as int, 2 * DIR_UNIT as int);
            lemma_mul_bound(radius as int, ry as int, MAX_PROJECT as int, 2 * DIR_UNIT as int);
            lemma_div_t_bound(radius as int * rx as int, DIR_UNIT as int, 2 * MAX_PROJECT as int);
            lemma_div_t_bound(radius as int * ry as int, DIR_UNIT as int, 2 * MAX_PROJECT as int);
        }
        let ghost prev = out@;
        let p = Pt {
            x: center.x + div_trunc(radius * rx, DIR_UNIT),
            y: center.y + div_trunc(radius * ry, DIR_UNIT),
        };
        out.push(p);
        proof {
            assert(pts_view(out@) =~= pts_view(prev).push(p@));
            assert(p@ == octagon_pt(center@, radius as int, facing@, k as int));
        }
        k = k + 1;
    }
    proof {
        assert(pts_view(out@) =~= octagon_loop(center@, radius as int, facing@));
    }
    Polygon { pts: out }
}

/// Appends the points of `src`, reversed, to `out`.
pub(crate) fn append_reversed(out: &mut Vec<Pt>, src: &Vec<Pt>)
    ensures
        pts_view(final(out)@) == pts_view(old(out)@) + grev(pts_view(src@)),
{
    let n = src.len();
    let ghost base = old(out)@;
    let mut j: usize = 0;
    while j < n
        invariant
            n == src@.len(),
            out@.len() == base.len() + j,
            j <= n,
            out@.take(base.len() as int) =~= base,
            forall|i: int|
                base.len() <= i < out@.len() ==> #[trigger] out@[i] == src@[n - 1 - (i
                    - base.len())],
        decreases n - j,
    {
        out.push(src[n - 1 - j]);
        j = j + 1;
    }
    proof {
        assert(pts_view(out@) =~= pts_view(base) + grev(pts_view(src@)));
    }
}

/// The loop of an arrow-capped thickening of a polyline: the body thickened
/// to width `w`, with a triangular head of half-width `w` at the far end.
/// Falls back to the plain thickening when the polyline is too short for a
/// head, or when the head or body would be degenerate.
pub open spec fn arrow_loop(s: Seq<GPt>, w: int) -> Seq<GPt> {
    let head = 2 * w;
    let total = pl_len(s);
    if total <= head + EPSILON_MM {
        thick_loop(s, w)
    } else {
        let body = slice_to(s, total - head);
        let base = body[body.len() - 1];
        let tip = s[s.len() - 1];
        if gdist_sq(base, tip) <= EPSILON_SQ || !clean(body) {
            thick_loop(s, w)
        } else {
            shift_pl(body, w / 2) + seq![
                gshift_pt(base, base, tip, w),
                tip,
                gshift_pt(base, base, tip, -w),
            ] + grev(shift_pl(body, -(w / 2)))
        }
    }
}

impl PolyLine {
    /// Thickens the polyline into an arrow-capped polygon pointing along the
    /// direction of travel. Declines exactly when a segment or the width is
    /// degenerate.
    pub fn make_arrow(&self, w: i64) -> (r: Option<Polygon>)
        requires
            self.wf(),
            pts_in_box(self@, WORK_BOUND as int),
            0 < w <= MAX_SHIFT,
        ensures
            r is Some <==> clean(self@) && w > EPSILON_MM,
            r is Some ==> r->Some_0@ == arrow_loop(self@, w as int) && r->Some_0.wf(),
    {
        let ghost s = self@;
        if w <= EPSILON_MM {
            return None;
        }
        if !self.is_clean() {
            return None;
        }
        proof {
            lemma_pl_len_bounds(s);
        }
        let total = self.length();
        let head = 2 * w;
        if total <= head + EPSILON_MM {
            let r = self.make_polygons(w);
            proof {
                assert(r is Some);
            }
            return r;
        }
        proof {
            lemma_slice_to_props(s, total as int - head as int, WORK_BOUND as int);
            assert(s.skip(0) =~= s);
        }
        let body_pts = slice_to_rec(&self.pts, 0, total - head);
        let ghost bodyv = slice_to(s, total as int - head as int);
        let base = body_pts[body_pts.len() - 1];
        let tip = self.pts[self.pts.len() - 1];
        proof {
            assert(base@ == bodyv[bodyv.len() - 1]);
            assert(tip@ == s[s.len() - 1]);
            assert(in_box(base@, WORK_BOUND as int));
            assert(in_box(tip@, WORK_BOUND as int));
        }
        let dsq = dist_sq_e(base, tip);
        if dsq <= EPSILON_SQ {
            let r = self.make_polygons(w);
            proof {
                assert(r is Some);
            }
            return r;
        }
        let body = PolyLine { pts: body_pts };
        proof {
            assert(body@ == bodyv);
        }
        let half = w / 2;
        let left = match body.shift_either(half) {
            Some(pl) => pl,
            None => {
                let r = self.make_polygons(w);
                proof {
                    assert(!clean(bodyv));
                    assert(r is Some);
                }
                return r;
            },
        };
        let right = match body.shift_either(-half) {
            Some(pl) => pl,
            None => {
                proof {
                    assert(false);
                }
                return None;
            },
        };
        let head_line = Line { p1: base, p2: tip };
        let hl = head_line.shift(w);
        let hr = head_line.shift(-w);
        let mut out: Vec<Pt> = left.pts;
        let ghost before_head = out@;
        out.push(hl.p1);
        out.push(tip);
        out.push(hr.p1);
        proof {
            assert(pts_view(out@) =~= pts_view(before_head) + seq![hl.p1@, tip@, hr.p1@]);
        }
        append_reversed(&mut out, &right.pts);
        proof {
            assert(pts_view(out@) =~= arrow_loop(s, w as int));
            lemma_shift_pl_box(bodyv, w as int / 2, WORK_BOUND as int);
            lemma_shift_pl_box(bodyv, -(w as int / 2), WORK_BOUND as int);
            lemma_seg_len_pos(base@, tip@);
            lemma_gshift_off_bound(base@, tip@, w as int);
            lemma_gshift_off_bound(base@, tip@, -(w as int));
            assert(pts_in_box(pts_view(out@), PT_BOUND as int)) by {
                let lv = shift_pl(bodyv, w as int / 2);
                let rv = shift_pl(bodyv, -(w as int / 2));
                assert(forall|i: int|
                    0 <= i < lv.len() ==> pts_view(out@)[i] == #[trigger] lv[i]);
                assert(forall|i: int|
                    lv.len() + 3 <= i < pts_view(out@).len() ==> pts_view(out@)[i]
                        == #[trigger] rv[rv.len() - 1 - (i - lv.len() - 3)]);
            }
        }
        Some(Polygon { pts: out })
    }
}

/// The number of dashes of length `dash` separated by `gap` that fit along a
/// path of length `total`, starting at its beginning.
pub open spec fn dash_count(total: int, dash: int, gap: int) -> int {
    if total < dash {
        0
    } else {
        (total - dash) / (dash + gap) + 1
    }
}

/// The `j`-th dash starts at `j * (dash + gap)`; it fits exactly when `j`
/// is below the dash count.
pub proof fn lemma_dash_count_iff(total: int, dash: int, gap: int, j: int)
    requires
        dash > 0,
        gap > 0,
        j >= 0,
    ensures
        (j * (dash + gap) + dash <= total) <==> (j < dash_count(total, dash, gap)),
{
    let d = dash + gap;
    assert(j * d >= 0) by (nonlinear_arith)
        requires
            j >= 0,
            d > 0,
    ;
    if total < dash {
    } else {
        let q = (total - dash) / d;
        lemma_fundamental_div_mod(total - dash, d);
        lemma_mod_bound(total - dash, d);
        let r = (total - dash) % d;
        assert(q >= 0) by (nonlinear_arith)
            requires
                total - dash == d * q + r,
                0 <= r < d,
                total - dash >= 0,
                d > 0,
        ;
        if j <= q {
            assert(j * d <= q * d) by (nonlinear_arith)
                requires
                    j <= q,
                    d > 0,
            ;
            assert(q * d <= total - dash) by (nonlinear_arith)
                requires
                    total - dash == d * q + r,
                    0 <= r,
            ;
        }
        if j > q {
            assert(j * d >= (q + 1) * d) by (nonlinear_arith)
                requires
                    j >= q + 1,
                    d > 0,
            ;
            assert((q + 1) * d > total - dash) by (nonlinear_arith)
                requires
                    total - dash == d * q + r,
                    r < d,
            ;
        }
    }
}

/// The dash piece starting at index `j`.
pub open spec fn dash_piece(s: Seq<GPt>, w: int, dash: int, gap: int, j: int) -> Seq<GPt> {
    thick_loop(slice_pts(s, j * (dash + gap), j * (dash + gap) + dash), w)
}

/// Whether the `j`-th dash piece survives the degeneracy checks.
pub open spec fn dash_piece_ok(s: Seq<GPt>, w: int, dash: int, gap: int, j: int) -> bool {
    clean(slice_pts(s, j * (dash + gap), j * (dash + gap) + dash)) && w > EPSILON_MM
}

/// The loops of the first `k` dash pieces that survive.
pub open spec fn dashes_upto(s: Seq<GPt>, w: int, dash: int, gap: int, k: int) -> Seq<Seq<GPt>>
    decreases k,
{
    if k <= 0 {
        Seq::empty()
    } else {
        dashes_upto(s, w, dash, gap, k - 1) + (if dash_piece_ok(s, w, dash, gap, k - 1) {
            seq![dash_piece(s, w, dash, gap, k - 1)]
        } else {
            Seq::empty()
        })
    }
}

/// The loops of all dashes along `s`: a single full-length piece when the
/// path is no longer than one dash, else one piece per fitting dash.
pub open spec fn dashed_polys(s: Seq<GPt>, w: int, dash: int, gap: int) -> Seq<Seq<GPt>> {
    if pl_len(s) <= dash {
        if clean(s) && w > EPSILON_MM {
            seq![thick_loop(s, w)]
        } else {
            Seq::empty()
        }
    } else {
        dashes_upto(s, w, dash, gap, dash_count(pl_len(s), dash, gap))
    }
}

/// The views of a list of polygons.
pub open spec fn polys_view(v: Seq<Polygon>) -> Seq<Seq<GPt>> {
    Seq::new(v.len(), |i: int| v[i]@)
}

impl PolyLine {
    /// Chops the polyline into dashes of length `dash` separated by `gap`,
    /// each thickened to width `w`. Degenerate dashes are skipped.
    #[verifier::loop_isolation(false)]
    pub fn dashed_lines(&self, w: i64, dash: i64, gap: i64) -> (r: Vec<Polygon>)
        requires
            self.wf(),
            pts_in_box(self@, WORK_BOUND as int),
            0 < w <= MAX_SHIFT,
            100 <= dash <= 100_000,
            100 <= gap <= 100_000,
        ensures
            polys_view(r@) == dashed_polys(self@, w as int, dash as int, gap as int),
    {
        let ghost s = self@;
        proof {
            lemma_pl_len_bounds(s);
        }
        let total = self.length();
        let mut out: Vec<Polygon> = Vec::new();
        if total <= dash {
            match self.make_polygons(w) {
                Some(p) => {
                    out.push(p);
                    proof {
                        assert(polys_view(out@) =~= dashed_polys(
                            s,
                            w as int,
                            dash as int,
                            gap as int,
                        ));
                    }
                },
                None => {
                    proof {
                        assert(polys_view(out@) =~= dashed_polys(
                            s,
                            w as int,
                            dash as int,
                            gap as int,
                        ));
                    }
                },
            }
            return out;
        }
        let ghost count = dash_count(total as int, dash as int, gap as int);
        proof {
            let x = total as int - dash as int;
            let dd = dash as int + gap as int;
            assert(x <= 300_000_000 * dd) by (nonlinear_arith)
                requires
                    0 <= x <= 60_000_000_000,
                    dd >= 200,
            ;
            lemma_div_t_bound(x, dd, 300_000_000);
            assert(count <= 300_000_001);
        }
        let mut j: usize = 0;
        let mut start: i64 = 0;
        while start + dash <= total
            invariant
                start == j * (dash as int + gap as int),
                0 <= start <= total + dash + gap,
                j as int <= count,
                polys_view(out@) =~= dashes_upto(s, w as int, dash as int, gap as int, j as int),
            decreases total + dash + gap - start,
        {
            proof {
                lemma_dash_count_iff(total as int, dash as int, gap as int, j as int);
                assert((j as int) < count);
            }
            let piece = self.exact_slice(start, start + dash);
            let ghost prev = out@;
            match piece.make_polygons(w) {
                Some(p) => {
                    out.push(p);
                    proof {
                        assert(polys_view(out@) =~= polys_view(prev).push(p@));
                    }
                },
                None => {},
            }
            proof {
                assert((j + 1) * (dash as int + gap as int) == j * (dash as int + gap as int) + (
                dash as int + gap as int)) by (nonlinear_arith);
                assert(polys_view(out@) =~= dashes_upto(
                    s,
                    w as int,
                    dash as int,
                    gap as int,
                    j as int + 1,
                ));
            }
            proof {
                assert((j as int) + 1 <= count <= 300_000_001);
            }
            j = j + 1;
            start = start + dash + gap;
        }
        proof {
            lemma_dash_count_iff(total as int, dash as int, gap as int, j as int);
            assert((j as int) >= count);
            assert((j as int) == count);
        }
        out
    }
}

} // verus!
