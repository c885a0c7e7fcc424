use crate::aabb::{lemma_distance_monotone, lemma_point_distance, AABB};
use crate::object::{ObjectEq, PointDistance, RTreeObject};
use crate::point::{distance_2, dot_from, point_distance_2, point_eq, Point};
use vstd::prelude::*;

verus! {

/// A line between two points, with data of the caller's choice.
#[derive(Debug, Clone, Copy, PartialEq, Eq, PartialOrd, Ord)]
pub struct LineWithData<T> {
    /// The line's data.
    pub data: T,
    /// The line's start point.
    pub from: Point,
    /// The line's end point.
    pub to: Point,
}

/// The quotient of `a` by a positive `b`, rounded toward zero.
pub open spec fn div_toward_zero(a: int, b: int) -> int {
    if a >= 0 {
        a / b
    } else {
        -((-a) / b)
    }
}

/// `num_traits::Zero::zero` for `i128`: the number zero.
#[verifier::external_body]
fn scalar_zero() -> (r: i128)
    ensures
        r == 0,
{
    num_traits::Zero::zero()
}

impl<T> LineWithData<T> {
    /// Where on the line the foot of `q` lies, as a multiple of the way from
    /// `from` to `to`, rounded toward zero.
    pub open spec fn project_point_spec(self, q: Point) -> int {
        div_toward_zero(dot_from(self.from, q, self.to), point_distance_2(self.from, self.to))
    }

    /// The point of the line that counts as nearest to `q`: an end of the
    /// line, as no whole number lies between zero and one.
    pub open spec fn nearest_point_spec(self, q: Point) -> Point {
        if self.project_point_spec(q) <= 0 {
            self.from
        } else {
            self.to
        }
    }

    /// Creates a new line between two points.
    pub fn new(data: T, from: Point, to: Point) -> (r: Self)
        ensures
            r.data == data,
            r.from == from,
            r.to == to,
    {
        LineWithData { data, from, to }
    }

    /// Returns the squared length of this line.
    pub fn length_2(&self) -> (r: i128)
        ensures
            r == point_distance_2(self.from, self.to),
    {
        distance_2(&self.from, &self.to)
    }

    /// Where on the line the foot of `query_point` lies.
    pub fn project_point(&self, query_point: &Point) -> (r: i128)
        requires
            self.from != self.to,
        ensures
            r == self.project_point_spec(*query_point),
    {
        let dx: i128 = self.to[0] as i128 - self.from[0] as i128;
        let dy: i128 = self.to[1] as i128 - self.from[1] as i128;
        let qx: i128 = query_point[0] as i128 - self.from[0] as i128;
        let qy: i128 = query_point[1] as i128 - self.from[1] as i128;
        let len = self.length_2();
        proof {
            assert(-0x1_0000_0000_0000_0000 <= qx * dx <= 0x1_0000_0000_0000_0000)
                by (nonlinear_arith)
                requires
                    -0x1_0000_0000 < qx < 0x1_0000_0000,
                    -0x1_0000_0000 < dx < 0x1_0000_0000,
            ;
            assert(-0x1_0000_0000_0000_0000 <= qy * dy <= 0x1_0000_0000_0000_0000)
                by (nonlinear_arith)
                requires
                    -0x1_0000_0000 < qy < 0x1_0000_0000,
                    -0x1_0000_0000 < dy < 0x1_0000_0000,
            ;
            let nx = self.from[0] - self.to[0];
            let ny = self.from[1] - self.to[1];
            assert(nx * nx == dx * dx) by (nonlinear_arith)
                requires
                    nx == -dx,
            ;
            assert(ny * ny == dy * dy) by (nonlinear_arith)
                requires
                    ny == -dy,
            ;
            assert(len == dx * dx + dy * dy);
            if len == 0 {
                assert(dx == 0 && dy == 0) by (nonlinear_arith)
                    requires
                        dx * dx + dy * dy == 0,
                ;
                assert(self.from@ =~= self.to@);
                assert(self.from =~= self.to);
            }
            assert(dot_from(self.from, *query_point, self.to) == qx * dx + qy * dy);
        }
        let dot: i128 = qx * dx + qy * dy;
        if dot >= 0 {
            dot / len
        } else {
            let m: i128 = 0 - dot;
            proof {
                assert(0 <= m / len <= m) by (nonlinear_arith)
                    requires
                        m >= 0,
                        len >= 1,
                ;
            }
            0 - (m / len)
        }
    }

    /// Returns the nearest point on this line relative to a given point.
    pub fn nearest_point(&self, query_point: &Point) -> (r: Point)
        requires
            self.from != self.to,
        ensures
            r == self.nearest_point_spec(*query_point),
    {
        let s = self.project_point(query_point);
        if s <= scalar_zero() {
            self.from
        } else {
            self.to
        }
    }

    /// Squared distance from the line's nearest point to `point`.
    pub fn distance_2(&self, point: &Point) -> (r: i128)
        requires
            self.from != self.to,
        ensures
            r == point_distance_2(self.nearest_point_spec(*point), *point),
    {
        let nearest = self.nearest_point(point);
        distance_2(&nearest, point)
    }
}

impl<T> RTreeObject for LineWithData<T> {
    open spec fn envelope_spec(&self) -> AABB {
        AABB::from_corners_spec(self.from, self.to)
    }

    fn envelope(&self) -> (e: AABB) {
        AABB::from_corners(self.from, self.to)
    }

    proof fn lemma_envelope_valid(&self) {
    }
}

impl<T> PointDistance for LineWithData<T> {
    /// Squared distance from `p` to the point of the line that counts as
    /// nearest to it; for a line without length, to its one point.
    open spec fn distance_2_spec(&self, p: Point) -> int {
        if self.from == self.to {
            point_distance_2(self.from, p)
        } else {
            point_distance_2(self.nearest_point_spec(p), p)
        }
    }

    fn distance_2(&self, p: &Point) -> (d: i128) {
        if point_eq(&self.from, &self.to) {
            distance_2(&self.from, p)
        } else {
            LineWithData::distance_2(self, p)
        }
    }

    /// The line covers the points at distance zero.
    open spec fn contains_point_spec(&self, p: Point) -> bool {
        self.distance_2_spec(p) <= 0
    }

    fn contains_point(&self, p: &Point) -> (r: bool) {
        PointDistance::distance_2(self, p) <= 0
    }

    proof fn lemma_distance_bound(&self, p: Point) {
        let near = if self.from == self.to || self.project_point_spec(p) <= 0 {
            self.from
        } else {
            self.to
        };
        lemma_point_distance(near, p);
        lemma_distance_monotone(self.envelope_spec(), AABB::from_point_spec(near), p);
    }

    proof fn lemma_contained_in_envelope(&self, p: Point) {
        let near = if self.from == self.to || self.project_point_spec(p) <= 0 {
            self.from
        } else {
            self.to
        };
        let dx = near[0] - p[0];
        let dy = near[1] - p[1];
        assert(dx == 0 && dy == 0) by (nonlinear_arith)
            requires
                dx * dx + dy * dy <= 0,
        ;
    }
}

impl<T: ObjectEq> ObjectEq for LineWithData<T> {
    fn same_object(&self, other: &Self) -> (r: bool) {
        self.data.same_object(&other.data) && point_eq(&self.from, &other.from) && point_eq(
            &self.to,
            &other.to,
        )
    }
}

} // verus!
