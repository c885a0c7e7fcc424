use crate::aabb::{lemma_point_distance, AABB};
use crate::point::{distance_2, point_distance_2, point_eq, Point};
use vstd::prelude::*;

verus! {

/// A value that can be compared with another of its type.
pub trait ObjectEq: Sized {
    /// Whether the two are the same value.
    fn same_object(&self, other: &Self) -> (r: bool)
        ensures
            r == (*self == *other),
    ;
}

/// What a tree stores: a value with an envelope that never changes.
pub trait RTreeObject: Sized {
    /// The object's envelope.
    spec fn envelope_spec(&self) -> AABB;

    fn envelope(&self) -> (e: AABB)
        ensures
            e == self.envelope_spec(),
    ;

    /// An object's envelope is never reversed.
    proof fn lemma_envelope_valid(&self)
        ensures
            self.envelope_spec().is_valid(),
    ;
}

/// An object that knows how far it is from a point.
pub trait PointDistance: RTreeObject {
    /// Squared distance from the object to `p`.
    spec fn distance_2_spec(&self, p: Point) -> int;

    fn distance_2(&self, p: &Point) -> (d: i128)
        ensures
            d == self.distance_2_spec(*p),
    ;

    /// Whether the object covers `p`.
    spec fn contains_point_spec(&self, p: Point) -> bool;

    fn contains_point(&self, p: &Point) -> (r: bool)
        ensures
            r == self.contains_point_spec(*p),
    ;

    /// No point is nearer to an object than to the object's envelope.
    proof fn lemma_distance_bound(&self, p: Point)
        ensures
            self.envelope_spec().distance_2_spec(p) <= self.distance_2_spec(p),
    ;

    /// A point that the object covers lies in the object's envelope.
    proof fn lemma_contained_in_envelope(&self, p: Point)
        requires
            self.contains_point_spec(p),
        ensures
            self.envelope_spec().contains_point_spec(p),
    ;
}

impl RTreeObject for Point {
    open spec fn envelope_spec(&self) -> AABB {
        AABB::from_point_spec(*self)
    }

    fn envelope(&self) -> (e: AABB) {
        AABB::from_point(*self)
    }

    proof fn lemma_envelope_valid(&self) {
    }
}

impl ObjectEq for Point {
    fn same_object(&self, other: &Self) -> (r: bool) {
        point_eq(self, other)
    }
}

impl ObjectEq for usize {
    fn same_object(&self, other: &Self) -> (r: bool) {
        *self == *other
    }
}

impl ObjectEq for u64 {
    fn same_object(&self, other: &Self) -> (r: bool) {
        *self == *other
    }
}

impl ObjectEq for i64 {
    fn same_object(&self, other: &Self) -> (r: bool) {
        *self == *other
    }
}

impl ObjectEq for u32 {
    fn same_object(&self, other: &Self) -> (r: bool) {
        *self == *other
    }
}

impl ObjectEq for i32 {
    fn same_object(&self, other: &Self) -> (r: bool) {
        *self == *other
    }
}

impl PointDistance for Point {
    open spec fn distance_2_spec(&self, p: Point) -> int {
        point_distance_2(*self, p)
    }

    fn distance_2(&self, p: &Point) -> (d: i128) {
        distance_2(self, p)
    }

    open spec fn contains_point_spec(&self, p: Point) -> bool {
        *self == p
    }

    fn contains_point(&self, p: &Point) -> (r: bool) {
        point_eq(self, p)
    }

    proof fn lemma_distance_bound(&self, p: Point) {
        lemma_point_distance(*self, p);
    }

    proof fn lemma_contained_in_envelope(&self, p: Point) {
    }
}

} // verus!
