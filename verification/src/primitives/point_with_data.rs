use crate::aabb::{lemma_point_distance, AABB};
use crate::object::{ObjectEq, PointDistance, RTreeObject};
use crate::point::{distance_2, point_distance_2, point_eq, Point};
use vstd::prelude::*;

verus! {

/// A point with data of the caller's choice. While the point is in a tree,
/// its data may be changed, its position may not.
#[derive(Debug, Clone, Copy, PartialEq, Eq, PartialOrd, Ord)]
pub struct PointWithData<T> {
    /// The point's data.
    pub data: T,
    /// Where the point lies.
    pub point: Point,
}

impl<T> PointWithData<T> {
    /// Creates a new point with data.
    pub fn new(data: T, point: Point) -> (r: Self)
        ensures
            r.data == data,
            r.point == point,
    {
        PointWithData { data, point }
    }

    /// Where the point lies.
    pub fn position(&self) -> (p: &Point)
        ensures
            *p == self.point,
    {
        &self.point
    }
}

impl<T> RTreeObject for PointWithData<T> {
    open spec fn envelope_spec(&self) -> AABB {
        AABB::from_point_spec(self.point)
    }

    fn envelope(&self) -> (e: AABB) {
        AABB::from_point(self.point)
    }

    proof fn lemma_envelope_valid(&self) {
    }
}

impl<T: ObjectEq> ObjectEq for PointWithData<T> {
    fn same_object(&self, other: &Self) -> (r: bool) {
        self.data.same_object(&other.data) && point_eq(&self.point, &other.point)
    }
}

impl<T> PointDistance for PointWithData<T> {
    open spec fn distance_2_spec(&self, p: Point) -> int {
        point_distance_2(self.point, p)
    }

    fn distance_2(&self, p: &Point) -> (d: i128) {
        distance_2(&self.point, p)
    }

    open spec fn contains_point_spec(&self, p: Point) -> bool {
        self.point == p
    }

    fn contains_point(&self, p: &Point) -> (r: bool) {
        point_eq(&self.point, p)
    }

    proof fn lemma_distance_bound(&self, p: Point) {
        lemma_point_distance(self.point, p);
    }

    proof fn lemma_contained_in_envelope(&self, p: Point) {
    }
}

} // verus!
