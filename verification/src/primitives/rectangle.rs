use crate::aabb::AABB;
use crate::object::{ObjectEq, PointDistance, RTreeObject};
use crate::point::{point_eq, Point};
use vstd::prelude::*;

verus! {

/// A rectangle with sides along the axes, given by two opposite corners.
#[derive(Clone, Copy, Debug, PartialEq, Eq)]
pub struct Rectangle {
    pub first: Point,
    pub second: Point,
}

impl Rectangle {
    /// The rectangle between two corners, given in any order.
    pub fn from_corners(first: Point, second: Point) -> (r: Rectangle)
        ensures
            r.first == first,
            r.second == second,
    {
        Rectangle { first, second }
    }
}

impl RTreeObject for Rectangle {
    open spec fn envelope_spec(&self) -> AABB {
        AABB::from_corners_spec(self.first, self.second)
    }

    fn envelope(&self) -> (e: AABB) {
        AABB::from_corners(self.first, self.second)
    }

    proof fn lemma_envelope_valid(&self) {
    }
}

impl ObjectEq for Rectangle {
    fn same_object(&self, other: &Self) -> (r: bool) {
        point_eq(&self.first, &other.first) && point_eq(&self.second, &other.second)
    }
}

impl PointDistance for Rectangle {
    open spec fn distance_2_spec(&self, p: Point) -> int {
        self.envelope_spec().distance_2_spec(p)
    }

    fn distance_2(&self, p: &Point) -> (d: i128) {
        self.envelope().min_distance_2_to_point(p)
    }

    open spec fn contains_point_spec(&self, p: Point) -> bool {
        self.envelope_spec().contains_point_spec(p)
    }

    fn contains_point(&self, p: &Point) -> (r: bool) {
        self.envelope().contains_point(p)
    }

    proof fn lemma_distance_bound(&self, p: Point) {
    }

    proof fn lemma_contained_in_envelope(&self, p: Point) {
    }
}

} // verus!
