use vstd::prelude::*;

verus! {

/// Number of coordinate axes of every point handled by this crate.
pub const DIMENSIONS: usize = 2;

/// A point of the plane with integer coordinates, one per axis.
///
/// Coordinates are 32 bit wide so that every derived quantity (side lengths,
/// areas, squared distances and sums of a node's worth of them) fits in an
/// `i128` without wrapping.
pub type Point = [i32; 2];

/// The largest coordinate; stands for positive infinity.
pub const COORD_MAX: i32 = 2147483647;

/// The smallest coordinate; stands for negative infinity.
pub const COORD_MIN: i32 = -2147483648;

/// Squared euclidean distance between two points, as a mathematical integer.
pub open spec fn point_distance_2(a: Point, b: Point) -> int {
    (a[0] - b[0]) * (a[0] - b[0]) + (a[1] - b[1]) * (a[1] - b[1])
}

/// Dot product of the two difference vectors `a - o` and `b - o`.
pub open spec fn dot_from(o: Point, a: Point, b: Point) -> int {
    (a[0] - o[0]) * (b[0] - o[0]) + (a[1] - o[1]) * (b[1] - o[1])
}

/// The square of a coordinate difference fits well inside an `i128`.
pub proof fn lemma_square_bound(d: int)
    requires
        -0x1_0000_0000 < d < 0x1_0000_0000,
    ensures
        0 <= d * d <= 0xffff_fffe_0000_0001,
{
    assert(0 <= d * d <= 0xffff_fffe_0000_0001) by (nonlinear_arith)
        requires
            -0x1_0000_0000 < d < 0x1_0000_0000,
    ;
}

/// The product of two side lengths fits well inside an `i128`.
pub proof fn lemma_product_bound(a: int, b: int)
    requires
        0 <= a < 0x1_0000_0000,
        0 <= b < 0x1_0000_0000,
    ensures
        0 <= a * b <= 0xffff_fffe_0000_0001,
{
    assert(0 <= a * b <= 0xffff_fffe_0000_0001) by (nonlinear_arith)
        requires
            0 <= a < 0x1_0000_0000,
            0 <= b < 0x1_0000_0000,
    ;
}

/// Whether two points have the same coordinates.
pub fn point_eq(a: &Point, b: &Point) -> (r: bool)
    ensures
        r == (*a == *b),
{
    let r = a[0] == b[0] && a[1] == b[1];
    proof {
        if r {
            assert(a@ =~= b@);
            assert(*a =~= *b);
        }
    }
    r
}

/// Squared euclidean distance between two points.
pub fn distance_2(a: &Point, b: &Point) -> (r: i128)
    ensures
        r == point_distance_2(*a, *b),
{
    let dx: i128 = a[0] as i128 - b[0] as i128;
    let dy: i128 = a[1] as i128 - b[1] as i128;
    proof {
        lemma_square_bound(dx as int);
        lemma_square_bound(dy as int);
    }
    dx * dx + dy * dy
}

} // verus!
