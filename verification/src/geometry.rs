//! Points and displacements on the integer lattice that positions live on.
//!
//! A coordinate is a whole number of lattice units. Distances are compared by
//! their squares, so no predicate here rounds.

use vstd::prelude::*;

verus! {

/// A position in space, in lattice units.
#[derive(Clone, Copy, Debug, PartialEq, Eq, Structural)]
pub struct Point3 {
    pub x: i32,
    pub y: i32,
    pub z: i32,
}

/// A displacement, a velocity or a direction, in lattice units.
#[derive(Clone, Copy, Debug, PartialEq, Eq, Structural)]
pub struct Vector3 {
    pub x: i32,
    pub y: i32,
    pub z: i32,
}

/// The square of an integer.
pub open spec fn square(a: int) -> int {
    a * a
}

/// The squared Euclidean distance between two points.
pub open spec fn dist_sq(a: Point3, b: Point3) -> int {
    square(a.x - b.x) + square(a.y - b.y) + square(a.z - b.z)
}

/// The squared Euclidean length of a vector.
pub open spec fn norm_sq(v: Vector3) -> int {
    square(v.x as int) + square(v.y as int) + square(v.z as int)
}

/// Whether `a` lies at most `radius` away from `b`.
pub open spec fn within(a: Point3, b: Point3, radius: u32) -> bool {
    dist_sq(a, b) <= square(radius as int)
}

/// A square is never negative.
pub proof fn lemma_square_nonnegative(a: int)
    ensures
        0 <= square(a),
{
    assert(0 <= a * a) by (nonlinear_arith);
}

/// On the non-negative integers squaring keeps the order, strictly.
pub proof fn lemma_square_strictly_monotonic(a: int, b: int)
    requires
        0 <= a < b,
    ensures
        square(a) < square(b),
{
    assert(a * a < b * b) by (nonlinear_arith)
        requires
            0 <= a < b,
    ;
}

/// The square of a difference does not depend on its sign.
pub proof fn lemma_square_symmetric(a: int, b: int)
    ensures
        square(a - b) == square(b - a),
{
    assert((a - b) * (a - b) == (b - a) * (b - a)) by (nonlinear_arith);
}

/// Two points that are within `radius` of each other differ by at most
/// `radius` along every axis.
pub proof fn lemma_within_bounds_each_axis(a: Point3, b: Point3, radius: u32)
    requires
        within(a, b, radius),
    ensures
        -radius <= a.x - b.x <= radius,
        -radius <= a.y - b.y <= radius,
        -radius <= a.z - b.z <= radius,
{
    let r = radius as int;
    lemma_square_nonnegative(a.x - b.x);
    lemma_square_nonnegative(a.y - b.y);
    lemma_square_nonnegative(a.z - b.z);
    lemma_axis_bound(a.x - b.x, r);
    lemma_axis_bound(a.y - b.y, r);
    lemma_axis_bound(a.z - b.z, r);
}

/// A difference whose square is at most `r` squared lies between `-r` and `r`.
proof fn lemma_axis_bound(d: int, r: int)
    requires
        0 <= r,
    ensures
        square(d) <= square(r) ==> -r <= d <= r,
{
    if d > r {
        lemma_square_strictly_monotonic(r, d);
    }
    if d < -r {
        lemma_square_strictly_monotonic(r, -d);
        lemma_square_symmetric(d, 0);
        assert(square(d) == square(-d));
    }
}

/// The absolute difference of two coordinates.
fn coordinate_gap(a: i32, b: i32) -> (gap: u64)
    ensures
        gap == if a >= b { a - b } else { b - a },
        gap <= 0xFFFF_FFFF,
{
    if a >= b {
        (a as i64 - b as i64) as u64
    } else {
        (b as i64 - a as i64) as u64
    }
}

/// The square of a value that fits in 32 bits.
fn square_of(gap: u64) -> (sq: u128)
    requires
        gap <= 0xFFFF_FFFF,
    ensures
        sq == square(gap as int),
        sq <= 0xFFFF_FFFE_0000_0001,
{
    assert(gap * gap <= 0xFFFF_FFFF * 0xFFFF_FFFF) by (nonlinear_arith)
        requires
            0 <= gap <= 0xFFFF_FFFF,
    ;
    (gap as u128) * (gap as u128)
}

impl Point3 {
    /// Creates the point with the given coordinates.
    pub fn new(x: i32, y: i32, z: i32) -> (p: Point3)
        ensures
            p == (Point3 { x, y, z }),
    {
        Point3 { x, y, z }
    }

    /// The squared distance from this point to `other`.
    pub fn distance_squared(&self, other: &Point3) -> (d: u128)
        ensures
            d == dist_sq(*self, *other),
    {
        let gx = coordinate_gap(self.x, other.x);
        let gy = coordinate_gap(self.y, other.y);
        let gz = coordinate_gap(self.z, other.z);
        proof {
            lemma_square_symmetric(self.x as int, other.x as int);
            lemma_square_symmetric(self.y as int, other.y as int);
            lemma_square_symmetric(self.z as int, other.z as int);
        }
        square_of(gx) + square_of(gy) + square_of(gz)
    }

    /// Whether this point lies at most `radius` away from `other`.
    pub fn is_within(&self, other: &Point3, radius: u32) -> (near: bool)
        ensures
            near == within(*self, *other, radius),
    {
        let limit = square_of(radius as u64);
        self.distance_squared(other) <= limit
    }
}

impl Vector3 {
    /// Creates the vector with the given components.
    pub fn new(x: i32, y: i32, z: i32) -> (v: Vector3)
        ensures
            v == (Vector3 { x, y, z }),
    {
        Vector3 { x, y, z }
    }

    /// The zero vector.
    pub fn zero() -> (v: Vector3)
        ensures
            v == (Vector3 { x: 0, y: 0, z: 0 }),
    {
        Vector3 { x: 0, y: 0, z: 0 }
    }

    /// The squared length of this vector.
    pub fn magnitude_squared(&self) -> (m: u128)
        ensures
            m == norm_sq(*self),
    {
        let gx = coordinate_gap(self.x, 0);
        let gy = coordinate_gap(self.y, 0);
        let gz = coordinate_gap(self.z, 0);
        proof {
            lemma_square_symmetric(self.x as int, 0);
            lemma_square_symmetric(self.y as int, 0);
            lemma_square_symmetric(self.z as int, 0);
        }
        square_of(gx) + square_of(gy) + square_of(gz)
    }
}

} // verus!
