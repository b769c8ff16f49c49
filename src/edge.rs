//! Bisector edges and the trimming of an edge against a probe site.
use vstd::prelude::*;
use crate::geometry::{dot, int_dot, Point, Vector, COORD_LIMIT};
use crate::rational::Rational;

verus! {

/// Identity of a site: its insertion index.
pub type PointId = u32;

/// Bound on the components of an edge's doubled anchor and direction.
pub const EDGE_LIMIT: i32 = 65536;

/// The surviving part of the perpendicular bisector of two sites.
///
/// The point of parameter `t` is `double_point / 2 + t * mul_dir`.
#[derive(Clone, Copy, Debug)]
pub struct VoronoiEdge {
    /// Sum of the two sites: twice the midpoint, kept integral.
    pub double_point: Point,
    /// Direction of the bisector: the vector between the sites turned a quarter.
    pub mul_dir: Vector,
    /// Ids of the two sites, in the order the edge was built from them.
    pub points: [PointId; 2],
    /// Lower bound on `t`, or none when unbounded below.
    pub min_t: Option<Rational>,
    /// Upper bound on `t`, or none when unbounded above.
    pub max_t: Option<Rational>,
}

/// Outcome of trimming an edge against one more site.
#[derive(Clone, Copy, Debug)]
pub enum TrimmedEdge {
    /// The edge is unaffected.
    Keep,
    /// The whole edge is closer to the probe: it is removed.
    Filter,
    /// One bound was tightened.
    Trimmed(VoronoiEdge),
}

/// How a drawing of an edge looks, given its bounds.
#[derive(Clone, Copy, Debug, PartialEq, Eq, Structural)]
pub enum Shape {
    /// From parameter `min_t` to parameter `max_t`.
    Segment(Rational, Rational),
    /// From parameter `min_t` on along `+mul_dir`.
    Forward(Rational),
    /// From parameter `max_t` on along `-mul_dir`.
    Backward(Rational),
    /// Two opposite rays from the midpoint.
    Line,
}

/// `-limit < v < limit`.
pub open spec fn bounded(v: int, limit: int) -> bool {
    -limit < v < limit
}

impl VoronoiEdge {
    /// Anchor and direction stay small and the bounds form a non-empty interval.
    pub open spec fn wf(self) -> bool {
        &&& bounded(self.double_point.x as int, EDGE_LIMIT as int)
        &&& bounded(self.double_point.y as int, EDGE_LIMIT as int)
        &&& bounded(self.mul_dir.x as int, EDGE_LIMIT as int)
        &&& bounded(self.mul_dir.y as int, EDGE_LIMIT as int)
        &&& (self.min_t is Some ==> self.min_t->0.wf())
        &&& (self.max_t is Some ==> self.max_t->0.wf())
        &&& (self.min_t is Some && self.max_t is Some ==> self.min_t->0.lt(self.max_t->0))
    }

    /// The same edge with other bounds.
    pub open spec fn with_bounds(self, lo: Option<Rational>, hi: Option<Rational>) -> VoronoiEdge {
        VoronoiEdge { min_t: lo, max_t: hi, ..self }
    }

    /// The full bisector of `a` and `b`.
    pub open spec fn bisector(a: Point, b: Point, id1: PointId, id2: PointId) -> VoronoiEdge {
        VoronoiEdge {
            double_point: Point { x: (a.x + b.x) as i32, y: (a.y + b.y) as i32 },
            mul_dir: Vector { x: (b.y - a.y) as i32, y: (a.x - b.x) as i32 },
            points: [id1, id2],
            min_t: None,
            max_t: None,
        }
    }

    /// First component of `2 * p - double_point`.
    pub open spec fn diff_x(self, p: Point) -> int {
        2 * p.x - self.double_point.x
    }

    /// Second component of `2 * p - double_point`.
    pub open spec fn diff_y(self, p: Point) -> int {
        2 * p.y - self.double_point.y
    }

    /// Where the foot of `p` on the bisector line falls, scaled.
    pub open spec fn t_nearest(self, p: Point) -> int {
        dot(self.mul_dir.x as int, self.mul_dir.y as int, self.diff_x(p), self.diff_y(p))
    }

    /// Signed distance of `p` from the bisector line, scaled.
    pub open spec fn d_nearest(self, p: Point) -> int {
        dot(self.mul_dir.y as int, -self.mul_dir.x, self.diff_x(p), self.diff_y(p))
    }

    /// Squared length of the direction.
    pub open spec fn min_dist_sq(self) -> int {
        dot(self.mul_dir.x as int, self.mul_dir.y as int, self.mul_dir.x as int, self.mul_dir.y as int)
    }

    /// Parameter where `p` becomes as near as the edge's own sites.
    pub open spec fn cut_value(self, p: Point) -> Rational {
        let t = self.t_nearest(p);
        let d = self.d_nearest(p);
        let m = self.min_dist_sq();
        Rational::reduced(t * t + d * d - m * m, 4 * t * m)
    }

    /// Tightening the upper bound to `t`.
    pub open spec fn cut_max_spec(self, t: Rational) -> TrimmedEdge {
        if self.min_t is Some && t.le(self.min_t->0) {
            TrimmedEdge::Filter
        } else if self.max_t is Some && self.max_t->0.le(t) {
            TrimmedEdge::Keep
        } else {
            TrimmedEdge::Trimmed(self.with_bounds(self.min_t, Some(t)))
        }
    }

    /// Tightening the lower bound to `t`.
    pub open spec fn cut_min_spec(self, t: Rational) -> TrimmedEdge {
        if self.max_t is Some && self.max_t->0.le(t) {
            TrimmedEdge::Filter
        } else if self.min_t is Some && t.le(self.min_t->0) {
            TrimmedEdge::Keep
        } else {
            TrimmedEdge::Trimmed(self.with_bounds(Some(t), self.max_t))
        }
    }

    /// What trimming against the site `p` does to this edge.
    pub open spec fn trim_spec(self, p: Point) -> TrimmedEdge {
        let t = self.t_nearest(p);
        if t == 0 {
            let d = self.d_nearest(p);
            let m = self.min_dist_sq();
            if d * d > m * m {
                TrimmedEdge::Keep
            } else {
                TrimmedEdge::Filter
            }
        } else if t > 0 {
            self.cut_max_spec(self.cut_value(p))
        } else {
            self.cut_min_spec(self.cut_value(p))
        }
    }

    /// The drawable primitive of this edge's bounds.
    pub open spec fn shape_spec(self) -> Shape {
        match (self.min_t, self.max_t) {
            (Some(a), Some(b)) => Shape::Segment(a, b),
            (Some(a), None) => Shape::Forward(a),
            (None, Some(b)) => Shape::Backward(b),
            (None, None) => Shape::Line,
        }
    }

    /// The drawable primitive of this edge's bounds.
    pub fn shape(&self) -> (r: Shape)
        ensures
            r == self.shape_spec(),
    {
        match (self.min_t, self.max_t) {
            (Some(a), Some(b)) => Shape::Segment(a, b),
            (Some(a), None) => Shape::Forward(a),
            (None, Some(b)) => Shape::Backward(b),
            (None, None) => Shape::Line,
        }
    }

    /// Trims against every site of `points` but the edge's own two; none
    /// once some site removes it.
    pub fn trim_points(&self, points: &Vec<Point>) -> (r: Option<VoronoiEdge>)
        requires
            self.wf(),
            points@.len() <= u32::MAX,
            forall|k: int| 0 <= k < points@.len() ==> (#[trigger] points@[k]).in_range(),
        ensures
            r == trim_upto(Some(*self), points@, points@.len() as int),
            r matches Some(e) ==> e.wf() && e.points == self.points,
    {
        let mut trimmed: Option<VoronoiEdge> = Some(*self);
        let mut index: usize = 0;
        while index < points.len()
            invariant
                index <= points@.len(),
                points@.len() <= u32::MAX,
                self.wf(),
                forall|k: int| 0 <= k < points@.len() ==> (#[trigger] points@[k]).in_range(),
                trimmed == trim_upto(Some(*self), points@, index as int),
                trimmed matches Some(e) ==> e.wf() && e.points == self.points,
            decreases points@.len() - index,
        {
            let id = index as PointId;
            if self.points[0] != id && self.points[1] != id {
                if let Some(edge) = trimmed {
                    match edge.trim(&points[index]) {
                        TrimmedEdge::Keep => {},
                        TrimmedEdge::Filter => {
                            trimmed = None;
                        },
                        TrimmedEdge::Trimmed(new_edge) => {
                            trimmed = Some(new_edge);
                        },
                    }
                }
            }
            index += 1;
        }
        trimmed
    }

    /// The bisector of `pt1` and `pt2`, unbounded both ways.
    pub fn two_points(pt1: &Point, pt2: &Point, id1: PointId, id2: PointId) -> (r: VoronoiEdge)
        requires
            pt1.in_range(),
            pt2.in_range(),
        ensures
            r == VoronoiEdge::bisector(*pt1, *pt2, id1, id2),
            r.wf(),
    {
        let dir = Vector::new(pt2.x - pt1.x, pt2.y - pt1.y);
        let r = VoronoiEdge {
            double_point: Point::new(pt1.x + pt2.x, pt1.y + pt2.y),
            mul_dir: Vector::new(dir.y, -dir.x),
            points: [id1, id2],
            min_t: None,
            max_t: None,
        };
        r
    }

    /// Trims this edge against the site `point`: the part of the bisector
    /// strictly nearer to `point` than to the edge's own sites is cut away.
    pub fn trim(&self, point: &Point) -> (r: TrimmedEdge)
        requires
            self.wf(),
            point.in_range(),
        ensures
            r == self.trim_spec(*point),
            r matches TrimmedEdge::Trimmed(e) ==> e.wf(),
    {
        let diff = Vector::new(point.x * 2 - self.double_point.x, point.y * 2 - self.double_point.y);
        let t_nearest = int_dot(self.mul_dir, diff);
        let mul_perp_dir = Vector::new(self.mul_dir.y, -self.mul_dir.x);
        let d_nearest = int_dot(mul_perp_dir, diff);
        let min_dist_sq = int_dot(self.mul_dir, self.mul_dir);
        proof {
            lemma_trim_magnitudes(
                self.mul_dir.x as int,
                self.mul_dir.y as int,
                diff.x as int,
                diff.y as int,
            );
        }
        let t_nearest_sq = t_nearest * t_nearest;
        let d_nearest_sq = d_nearest * d_nearest;
        let min_dist_quart = min_dist_sq * min_dist_sq;
        // With `h` the distance of `point` from the bisector line and `r` half
        // the distance between the sites, `d_nearest` is `2 h |mul_dir|` and
        // `r` is `|mul_dir| / 2`: `h > r` reads `d_nearest^2 > min_dist_sq^2`.
        if t_nearest == 0 {
            if d_nearest_sq > min_dist_quart {
                return TrimmedEdge::Keep;
            } else {
                return TrimmedEdge::Filter;
            }
        }
        let cut_t = Rational::new(
            t_nearest_sq + d_nearest_sq - min_dist_quart,
            4 * t_nearest * min_dist_sq,
        );
        if t_nearest > 0 {
            self.cut_max(cut_t)
        } else {
            self.cut_min(cut_t)
        }
    }

    /// Upper bound tightened to `t`: removed when that empties the interval,
    /// unchanged when `t` is no tighter than the present bound.
    pub fn cut_max(&self, t: Rational) -> (r: TrimmedEdge)
        requires
            self.wf(),
            t.wf(),
        ensures
            r == self.cut_max_spec(t),
            r matches TrimmedEdge::Trimmed(e) ==> e.wf(),
    {
        if let Some(min_t) = self.min_t {
            match t.compare(&min_t) {
                core::cmp::Ordering::Greater => {},
                _ => {
                    return TrimmedEdge::Filter;
                },
            }
        }
        if let Some(max_t) = self.max_t {
            match t.compare(&max_t) {
                core::cmp::Ordering::Less => {},
                _ => {
                    return TrimmedEdge::Keep;
                },
            }
        }
        let mut edge = *self;
        edge.max_t = Some(t);
        TrimmedEdge::Trimmed(edge)
    }

    /// Lower bound tightened to `t`: removed when that empties the interval,
    /// unchanged when `t` is no tighter than the present bound.
    pub fn cut_min(&self, t: Rational) -> (r: TrimmedEdge)
        requires
            self.wf(),
            t.wf(),
        ensures
            r == self.cut_min_spec(t),
            r matches TrimmedEdge::Trimmed(e) ==> e.wf(),
    {
        if let Some(max_t) = self.max_t {
            match t.compare(&max_t) {
                core::cmp::Ordering::Less => {},
                _ => {
                    return TrimmedEdge::Filter;
                },
            }
        }
        if let Some(min_t) = self.min_t {
            match t.compare(&min_t) {
                core::cmp::Ordering::Greater => {},
                _ => {
                    return TrimmedEdge::Keep;
                },
            }
        }
        let mut edge = *self;
        edge.min_t = Some(t);
        TrimmedEdge::Trimmed(edge)
    }
}

/// One step of trimming a candidate edge: the site `p` of id `id` cuts it,
/// unless it is one of the edge's own sites or the edge is already gone.
pub open spec fn trim_step(e: Option<VoronoiEdge>, p: Point, id: int) -> Option<VoronoiEdge> {
    match e {
        None => None,
        Some(x) => if x.points[0] == id || x.points[1] == id {
            e
        } else {
            match x.trim_spec(p) {
                TrimmedEdge::Keep => e,
                TrimmedEdge::Filter => None,
                TrimmedEdge::Trimmed(y) => Some(y),
            }
        },
    }
}

/// Trimming `e` against the first `k` sites of `s`, in order of id.
pub open spec fn trim_upto(e: Option<VoronoiEdge>, s: Seq<Point>, k: int) -> Option<VoronoiEdge>
    decreases k,
{
    if k <= 0 {
        e
    } else {
        trim_step(trim_upto(e, s, k - 1), s[k - 1], k - 1)
    }
}

/// Trimming only ever shrinks an edge: it stays on its line, between its
/// sites, and a bound once set is kept or replaced by a tighter one.
pub proof fn lemma_trim_shrinks(e: VoronoiEdge, p: Point)
    ensures
        e.trim_spec(p) matches TrimmedEdge::Trimmed(x) ==> {
            &&& x.double_point == e.double_point
            &&& x.mul_dir == e.mul_dir
            &&& x.points == e.points
            &&& (e.min_t is Some ==> x.min_t is Some && e.min_t->0.le(x.min_t->0))
            &&& (e.max_t is Some ==> x.max_t is Some && x.max_t->0.le(e.max_t->0))
        },
{
}

/// The bisector of a site with itself has length zero; trimming it against
/// any site removes it.
pub proof fn lemma_degenerate_edge_filtered(a: Point, p: Point, id1: PointId, id2: PointId)
    ensures
        VoronoiEdge::bisector(a, a, id1, id2).trim_spec(p) matches TrimmedEdge::Filter,
{
}

/// Sizes of the quantities that trimming computes, for a direction and an
/// offset within the bounds that edges and sites keep.
pub(crate) proof fn lemma_trim_magnitudes(mx: int, my: int, dx: int, dy: int)
    requires
        -0x1_0000 < mx < 0x1_0000,
        -0x1_0000 < my < 0x1_0000,
        -0x2_0000 < dx < 0x2_0000,
        -0x2_0000 < dy < 0x2_0000,
    ensures
        bounded(dot(mx, my, dx, dy), 0x4_0000_0000),
        bounded(dot(my, -mx, dx, dy), 0x4_0000_0000),
        0 <= dot(mx, my, mx, my) < 0x2_0000_0000,
        dot(mx, my, mx, my) == 0 ==> dot(mx, my, dx, dy) == 0,
        bounded(dot(mx, my, dx, dy) * dot(mx, my, dx, dy), 0x10_0000_0000_0000_0000),
        bounded(dot(my, -mx, dx, dy) * dot(my, -mx, dx, dy), 0x10_0000_0000_0000_0000),
        bounded(dot(mx, my, mx, my) * dot(mx, my, mx, my), 0x4_0000_0000_0000_0000),
        bounded(4 * dot(mx, my, dx, dy) * dot(mx, my, mx, my), 0x20_0000_0000_0000_0000),
        dot(mx, my, dx, dy) != 0 ==> 4 * dot(mx, my, dx, dy) * dot(mx, my, mx, my) != 0,
{
    let t = dot(mx, my, dx, dy);
    let d = dot(my, -mx, dx, dy);
    let m = dot(mx, my, mx, my);
    assert(bounded(mx * dx, 0x2_0000_0000)) by (nonlinear_arith)
        requires -0x1_0000 < mx < 0x1_0000, -0x2_0000 < dx < 0x2_0000;
    assert(bounded(my * dy, 0x2_0000_0000)) by (nonlinear_arith)
        requires -0x1_0000 < my < 0x1_0000, -0x2_0000 < dy < 0x2_0000;
    assert(bounded(my * dx, 0x2_0000_0000)) by (nonlinear_arith)
        requires -0x1_0000 < my < 0x1_0000, -0x2_0000 < dx < 0x2_0000;
    assert(bounded((-mx) * dy, 0x2_0000_0000)) by (nonlinear_arith)
        requires -0x1_0000 < mx < 0x1_0000, -0x2_0000 < dy < 0x2_0000;
    assert(0 <= mx * mx < 0x1_0000_0000) by (nonlinear_arith)
        requires -0x1_0000 < mx < 0x1_0000;
    assert(0 <= my * my < 0x1_0000_0000) by (nonlinear_arith)
        requires -0x1_0000 < my < 0x1_0000;
    assert(m == 0 ==> mx == 0 && my == 0) by (nonlinear_arith)
        requires m == mx * mx + my * my;
    assert(bounded(t * t, 0x10_0000_0000_0000_0000)) by (nonlinear_arith)
        requires bounded(t, 0x4_0000_0000);
    assert(bounded(d * d, 0x10_0000_0000_0000_0000)) by (nonlinear_arith)
        requires bounded(d, 0x4_0000_0000);
    assert(bounded(m * m, 0x4_0000_0000_0000_0000)) by (nonlinear_arith)
        requires 0 <= m < 0x2_0000_0000;
    assert(bounded(4 * t * m, 0x20_0000_0000_0000_0000)) by (nonlinear_arith)
        requires bounded(t, 0x4_0000_0000), 0 <= m < 0x2_0000_0000;
    assert(t != 0 && m != 0 ==> 4 * t * m != 0) by (nonlinear_arith);
}

} // verus!
