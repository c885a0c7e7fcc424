use crate::point::{lemma_product_bound, lemma_square_bound, Point, COORD_MAX, COORD_MIN};
use vstd::prelude::*;

verus! {

/// An axis aligned bounding box: the envelope of every object and node.
///
/// The empty envelope is the pair `(COORD_MAX, COORD_MIN)` on every axis; it is
/// the neutral element of [`AABB::merged`].
#[derive(Clone, Copy, Debug, PartialEq, Eq)]
pub struct AABB {
    pub lower: Point,
    pub upper: Point,
}

pub open spec fn min_int(a: int, b: int) -> int {
    if a <= b {
        a
    } else {
        b
    }
}

pub open spec fn max_int(a: int, b: int) -> int {
    if a >= b {
        a
    } else {
        b
    }
}

/// Length of the side `[lo, hi]`, zero where the side is reversed.
pub open spec fn side(lo: int, hi: int) -> int {
    max_int(hi - lo, 0)
}

/// Distance on one axis from the coordinate `p` to the interval `[lo, hi]`.
pub open spec fn axis_gap(lo: int, hi: int, p: int) -> int {
    max_int(max_int(lo - p, p - hi), 0)
}

fn min_coord(a: i32, b: i32) -> (r: i32)
    ensures
        r == min_int(a as int, b as int),
{
    if a <= b {
        a
    } else {
        b
    }
}

fn max_coord(a: i32, b: i32) -> (r: i32)
    ensures
        r == max_int(a as int, b as int),
{
    if a >= b {
        a
    } else {
        b
    }
}

fn side_len(lo: i32, hi: i32) -> (r: i128)
    ensures
        r == side(lo as int, hi as int),
        0 <= r < 0x1_0000_0000,
{
    if hi > lo {
        hi as i128 - lo as i128
    } else {
        0
    }
}

fn gap_len(lo: i32, hi: i32, p: i32) -> (r: i128)
    ensures
        r == axis_gap(lo as int, hi as int, p as int),
        0 <= r < 0x1_0000_0000,
{
    let below: i128 = lo as i128 - p as i128;
    let above: i128 = p as i128 - hi as i128;
    let m: i128 = if below >= above {
        below
    } else {
        above
    };
    if m >= 0 {
        m
    } else {
        0
    }
}

fn floor_half(s: i64) -> (r: i32)
    requires
        2 * COORD_MIN <= s <= 2 * COORD_MAX,
    ensures
        r == s as int / 2,
{
    if s >= 0 {
        (s / 2) as i32
    } else {
        let t: i64 = (1 - s) / 2;
        (0 - t) as i32
    }
}

impl AABB {
    /// Every side runs from its lower to its upper end.
    pub open spec fn is_valid(self) -> bool {
        self.lower[0] <= self.upper[0] && self.lower[1] <= self.upper[1]
    }

    pub open spec fn empty_spec() -> AABB {
        AABB { lower: [COORD_MAX, COORD_MAX], upper: [COORD_MIN, COORD_MIN] }
    }

    pub open spec fn from_point_spec(p: Point) -> AABB {
        AABB { lower: p, upper: p }
    }

    pub open spec fn from_corners_spec(a: Point, b: Point) -> AABB {
        AABB {
            lower: [
                min_int(a[0] as int, b[0] as int) as i32,
                min_int(a[1] as int, b[1] as int) as i32,
            ],
            upper: [
                max_int(a[0] as int, b[0] as int) as i32,
                max_int(a[1] as int, b[1] as int) as i32,
            ],
        }
    }

    /// The smallest envelope that holds both: the minimum of the lower corners
    /// and the maximum of the upper corners, axis by axis.
    pub open spec fn merged_spec(self, other: AABB) -> AABB {
        AABB {
            lower: [
                min_int(self.lower[0] as int, other.lower[0] as int) as i32,
                min_int(self.lower[1] as int, other.lower[1] as int) as i32,
            ],
            upper: [
                max_int(self.upper[0] as int, other.upper[0] as int) as i32,
                max_int(self.upper[1] as int, other.upper[1] as int) as i32,
            ],
        }
    }

    /// The common part of both: the maximum of the lower corners and the
    /// minimum of the upper corners. Not valid where they do not meet.
    pub open spec fn intersection_spec(self, other: AABB) -> AABB {
        AABB {
            lower: [
                max_int(self.lower[0] as int, other.lower[0] as int) as i32,
                max_int(self.lower[1] as int, other.lower[1] as int) as i32,
            ],
            upper: [
                min_int(self.upper[0] as int, other.upper[0] as int) as i32,
                min_int(self.upper[1] as int, other.upper[1] as int) as i32,
            ],
        }
    }

    /// Product of the side lengths; zero where a side is not positive.
    pub open spec fn area_spec(self) -> int {
        side(self.lower[0] as int, self.upper[0] as int) * side(
            self.lower[1] as int,
            self.upper[1] as int,
        )
    }

    /// Sum of the side lengths.
    pub open spec fn margin_spec(self) -> int {
        side(self.lower[0] as int, self.upper[0] as int) + side(
            self.lower[1] as int,
            self.upper[1] as int,
        )
    }

    pub open spec fn intersection_area_spec(self, other: AABB) -> int {
        self.intersection_spec(other).area_spec()
    }

    pub open spec fn contains_point_spec(self, p: Point) -> bool {
        self.lower[0] <= p[0] <= self.upper[0] && self.lower[1] <= p[1] <= self.upper[1]
    }

    pub open spec fn contains_envelope_spec(self, other: AABB) -> bool {
        self.lower[0] <= other.lower[0] && other.upper[0] <= self.upper[0] && self.lower[1]
            <= other.lower[1] && other.upper[1] <= self.upper[1]
    }

    pub open spec fn intersects_spec(self, other: AABB) -> bool {
        self.lower[0] <= other.upper[0] && other.lower[0] <= self.upper[0] && self.lower[1]
            <= other.upper[1] && other.lower[1] <= self.upper[1]
    }

    /// Squared distance from `p` to the nearest point of the envelope.
    pub open spec fn distance_2_spec(self, p: Point) -> int {
        axis_gap(self.lower[0] as int, self.upper[0] as int, p[0] as int) * axis_gap(
            self.lower[0] as int,
            self.upper[0] as int,
            p[0] as int,
        ) + axis_gap(self.lower[1] as int, self.upper[1] as int, p[1] as int) * axis_gap(
            self.lower[1] as int,
            self.upper[1] as int,
            p[1] as int,
        )
    }

    /// The midpoint, each coordinate rounded down.
    pub open spec fn center_spec(self) -> Point {
        [
            ((self.lower[0] + self.upper[0]) / 2) as i32,
            ((self.lower[1] + self.upper[1]) / 2) as i32,
        ]
    }

    /// Twice the midpoint's coordinate on `axis`, without rounding.
    pub open spec fn center_key_spec(self, axis: int) -> int {
        self.lower[axis] + self.upper[axis]
    }

    /// The empty envelope.
    pub fn new_empty() -> (r: AABB)
        ensures
            r == AABB::empty_spec(),
    {
        let r = AABB { lower: [COORD_MAX, COORD_MAX], upper: [COORD_MIN, COORD_MIN] };
        proof {
            assert(r.lower@ =~= AABB::empty_spec().lower@);
            assert(r.upper@ =~= AABB::empty_spec().upper@);
            assert(r.lower =~= AABB::empty_spec().lower);
            assert(r.upper =~= AABB::empty_spec().upper);
        }
        r
    }

    /// The envelope of a single point.
    pub fn from_point(p: Point) -> (r: AABB)
        ensures
            r == AABB::from_point_spec(p),
            r.is_valid(),
    {
        AABB { lower: p, upper: p }
    }

    /// The envelope spanned by two corners, given in any order.
    pub fn from_corners(a: Point, b: Point) -> (r: AABB)
        ensures
            r == AABB::from_corners_spec(a, b),
            r.is_valid(),
    {
        let r = AABB {
            lower: [min_coord(a[0], b[0]), min_coord(a[1], b[1])],
            upper: [max_coord(a[0], b[0]), max_coord(a[1], b[1])],
        };
        proof {
            assert(r.lower@ =~= AABB::from_corners_spec(a, b).lower@);
            assert(r.upper@ =~= AABB::from_corners_spec(a, b).upper@);
            assert(r.lower =~= AABB::from_corners_spec(a, b).lower);
            assert(r.upper =~= AABB::from_corners_spec(a, b).upper);
        }
        r
    }

    /// The lower corner's coordinate on `axis`.
    pub fn lower_at(&self, axis: usize) -> (r: i32)
        requires
            axis < 2,
        ensures
            r == self.lower[axis as int],
    {
        self.lower[axis]
    }

    /// The upper corner's coordinate on `axis`.
    pub fn upper_at(&self, axis: usize) -> (r: i32)
        requires
            axis < 2,
        ensures
            r == self.upper[axis as int],
    {
        self.upper[axis]
    }

    /// The union of two envelopes.
    pub fn merged(&self, other: &AABB) -> (r: AABB)
        ensures
            r == self.merged_spec(*other),
    {
        let r = AABB {
            lower: [
                min_coord(self.lower[0], other.lower[0]),
                min_coord(self.lower[1], other.lower[1]),
            ],
            upper: [
                max_coord(self.upper[0], other.upper[0]),
                max_coord(self.upper[1], other.upper[1]),
            ],
        };
        proof {
            assert(r.lower@ =~= self.merged_spec(*other).lower@);
            assert(r.upper@ =~= self.merged_spec(*other).upper@);
            assert(r.lower =~= self.merged_spec(*other).lower);
            assert(r.upper =~= self.merged_spec(*other).upper);
        }
        r
    }

    /// Grows this envelope so that it holds `other` too.
    pub fn merge(&mut self, other: &AABB)
        ensures
            *final(self) == old(self).merged_spec(*other),
    {
        let m = self.merged(other);
        *self = m;
    }

    /// The common part of two envelopes (not valid where they do not meet).
    pub fn intersection(&self, other: &AABB) -> (r: AABB)
        ensures
            r == self.intersection_spec(*other),
    {
        let r = AABB {
            lower: [
                max_coord(self.lower[0], other.lower[0]),
                max_coord(self.lower[1], other.lower[1]),
            ],
            upper: [
                min_coord(self.upper[0], other.upper[0]),
                min_coord(self.upper[1], other.upper[1]),
            ],
        };
        proof {
            assert(r.lower@ =~= self.intersection_spec(*other).lower@);
            assert(r.upper@ =~= self.intersection_spec(*other).upper@);
            assert(r.lower =~= self.intersection_spec(*other).lower);
            assert(r.upper =~= self.intersection_spec(*other).upper);
        }
        r
    }

    /// The area: the product of the side lengths.
    pub fn area(&self) -> (r: i128)
        ensures
            r == self.area_spec(),
            0 <= r <= 0xffff_fffe_0000_0001,
    {
        let w = side_len(self.lower[0], self.upper[0]);
        let h = side_len(self.lower[1], self.upper[1]);
        proof {
            lemma_product_bound(w as int, h as int);
        }
        w * h
    }

    /// The margin: the sum of the side lengths.
    pub fn margin_value(&self) -> (r: i128)
        ensures
            r == self.margin_spec(),
            0 <= r <= 2 * 0xffff_ffff,
    {
        let w = side_len(self.lower[0], self.upper[0]);
        let h = side_len(self.lower[1], self.upper[1]);
        w + h
    }

    /// The same value as [`AABB::margin_value`].
    pub fn perimeter_value(&self) -> (r: i128)
        ensures
            r == self.margin_spec(),
            0 <= r <= 2 * 0xffff_ffff,
    {
        self.margin_value()
    }

    /// The area that two envelopes share; zero where they do not overlap.
    pub fn intersection_area(&self, other: &AABB) -> (r: i128)
        ensures
            r == self.intersection_area_spec(*other),
            0 <= r <= 0xffff_fffe_0000_0001,
    {
        self.intersection(other).area()
    }

    /// Whether the point lies in the envelope, borders included.
    pub fn contains_point(&self, p: &Point) -> (r: bool)
        ensures
            r == self.contains_point_spec(*p),
    {
        self.lower[0] <= p[0] && p[0] <= self.upper[0] && self.lower[1] <= p[1] && p[1]
            <= self.upper[1]
    }

    /// Whether `other` lies in this envelope, borders included.
    pub fn contains_envelope(&self, other: &AABB) -> (r: bool)
        ensures
            r == self.contains_envelope_spec(*other),
    {
        self.lower[0] <= other.lower[0] && other.upper[0] <= self.upper[0] && self.lower[1]
            <= other.lower[1] && other.upper[1] <= self.upper[1]
    }

    /// Whether the two envelopes share a point, borders included.
    pub fn intersects(&self, other: &AABB) -> (r: bool)
        ensures
            r == self.intersects_spec(*other),
    {
        self.lower[0] <= other.upper[0] && other.lower[0] <= self.upper[0] && self.lower[1]
            <= other.upper[1] && other.lower[1] <= self.upper[1]
    }

    /// Squared distance from a point to the envelope; zero inside it.
    pub fn min_distance_2_to_point(&self, p: &Point) -> (r: i128)
        ensures
            r == self.distance_2_spec(*p),
            0 <= r <= 2 * (0xffff_fffe_0000_0001),
    {
        let gx = gap_len(self.lower[0], self.upper[0], p[0]);
        let gy = gap_len(self.lower[1], self.upper[1], p[1]);
        proof {
            lemma_square_bound(gx as int);
            lemma_square_bound(gy as int);
        }
        gx * gx + gy * gy
    }

    /// Squared distances from a point to the lower and to the upper corner.
    pub fn distance_2_to_envelope_corners(&self, p: &Point) -> (r: (i128, i128))
        ensures
            r.0 == crate::point::point_distance_2(self.lower, *p),
            r.1 == crate::point::point_distance_2(self.upper, *p),
    {
        (crate::point::distance_2(&self.lower, p), crate::point::distance_2(&self.upper, p))
    }

    /// The midpoint of the envelope, each coordinate rounded down.
    pub fn center(&self) -> (r: Point)
        ensures
            r == self.center_spec(),
    {
        let cx = floor_half(self.lower[0] as i64 + self.upper[0] as i64);
        let cy = floor_half(self.lower[1] as i64 + self.upper[1] as i64);
        let r: Point = [cx, cy];
        proof {
            assert(r@ =~= self.center_spec()@);
            assert(r =~= self.center_spec());
        }
        r
    }

    /// Twice the midpoint's coordinate on `axis`: what nodes are ordered by
    /// along an axis.
    pub fn center_key(&self, axis: usize) -> (r: i64)
        requires
            axis < 2,
        ensures
            r == self.center_key_spec(axis as int),
    {
        self.lower[axis] as i64 + self.upper[axis] as i64
    }
}

/// `merged` holds both of its arguments, and is the least such envelope.
pub proof fn lemma_merged_contains(a: AABB, b: AABB)
    ensures
        a.merged_spec(b).contains_envelope_spec(a),
        a.merged_spec(b).contains_envelope_spec(b),
        forall|c: AABB|
            c.contains_envelope_spec(a) && c.contains_envelope_spec(b)
                ==> #[trigger] c.contains_envelope_spec(a.merged_spec(b)),
{
}

/// The distance to an envelope is at most the distance to any envelope inside it.
pub proof fn lemma_distance_monotone(outer: AABB, inner: AABB, p: Point)
    requires
        outer.contains_envelope_spec(inner),
    ensures
        0 <= outer.distance_2_spec(p) <= inner.distance_2_spec(p),
{
    let ox = axis_gap(outer.lower[0] as int, outer.upper[0] as int, p[0] as int);
    let oy = axis_gap(outer.lower[1] as int, outer.upper[1] as int, p[1] as int);
    let ix = axis_gap(inner.lower[0] as int, inner.upper[0] as int, p[0] as int);
    let iy = axis_gap(inner.lower[1] as int, inner.upper[1] as int, p[1] as int);
    assert(0 <= ox <= ix);
    assert(0 <= oy <= iy);
    assert(0 <= ox * ox <= ix * ix) by (nonlinear_arith)
        requires
            0 <= ox <= ix,
    ;
    assert(0 <= oy * oy <= iy * iy) by (nonlinear_arith)
        requires
            0 <= oy <= iy,
    ;
}

/// The envelope of a point is at the point's own distance.
pub proof fn lemma_point_distance(q: Point, p: Point)
    ensures
        AABB::from_point_spec(q).distance_2_spec(p) == crate::point::point_distance_2(q, p),
{
    let g0 = axis_gap(q[0] as int, q[0] as int, p[0] as int);
    let g1 = axis_gap(q[1] as int, q[1] as int, p[1] as int);
    let d0 = q[0] - p[0];
    let d1 = q[1] - p[1];
    assert(g0 * g0 == d0 * d0) by (nonlinear_arith)
        requires
            g0 == d0 || g0 == -d0,
    ;
    assert(g1 * g1 == d1 * d1) by (nonlinear_arith)
        requires
            g1 == d1 || g1 == -d1,
    ;
}


/// The part that an envelope shares with another grows with the envelope.
pub proof fn lemma_intersection_area_monotone(small: AABB, large: AABB, other: AABB)
    requires
        large.contains_envelope_spec(small),
    ensures
        0 <= small.intersection_area_spec(other) <= large.intersection_area_spec(other),
{
    let s = small.intersection_spec(other);
    let l = large.intersection_spec(other);
    let sw = side(s.lower[0] as int, s.upper[0] as int);
    let sh = side(s.lower[1] as int, s.upper[1] as int);
    let lw = side(l.lower[0] as int, l.upper[0] as int);
    let lh = side(l.lower[1] as int, l.upper[1] as int);
    assert(0 <= sw <= lw);
    assert(0 <= sh <= lh);
    assert(0 <= sw * sh <= lw * lh) by (nonlinear_arith)
        requires
            0 <= sw <= lw,
            0 <= sh <= lh,
    ;
}

/// The area grows with the envelope.
pub proof fn lemma_area_monotone(small: AABB, large: AABB)
    requires
        large.contains_envelope_spec(small),
    ensures
        0 <= small.area_spec() <= large.area_spec(),
{
    let sw = side(small.lower[0] as int, small.upper[0] as int);
    let sh = side(small.lower[1] as int, small.upper[1] as int);
    let lw = side(large.lower[0] as int, large.upper[0] as int);
    let lh = side(large.lower[1] as int, large.upper[1] as int);
    assert(0 <= sw <= lw);
    assert(0 <= sh <= lh);
    assert(0 <= sw * sh <= lw * lh) by (nonlinear_arith)
        requires
            0 <= sw <= lw,
            0 <= sh <= lh,
    ;
}

} // verus!
