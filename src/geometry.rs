//! Integer points and vectors of the plane.
use vstd::prelude::*;

verus! {

/// Coordinates of a site lie strictly between `-COORD_LIMIT` and `COORD_LIMIT`.
/// Within this range every intermediate quantity of the exact trimming
/// arithmetic fits its integer type.
pub const COORD_LIMIT: i32 = 32768;

/// A site of the diagram.
#[derive(Clone, Copy, Debug, PartialEq, Eq, Structural)]
pub struct Point {
    pub x: i32,
    pub y: i32,
}

/// A displacement between points.
#[derive(Clone, Copy, Debug, PartialEq, Eq, Structural)]
pub struct Vector {
    pub x: i32,
    pub y: i32,
}

impl Point {
    pub open spec fn in_range(self) -> bool {
        &&& -COORD_LIMIT < self.x < COORD_LIMIT
        &&& -COORD_LIMIT < self.y < COORD_LIMIT
    }

    pub fn new(x: i32, y: i32) -> (r: Point)
        ensures
            r.x == x,
            r.y == y,
    {
        Point { x, y }
    }
}

impl Vector {
    pub fn new(x: i32, y: i32) -> (r: Vector)
        ensures
            r.x == x,
            r.y == y,
    {
        Vector { x, y }
    }
}

/// Dot product of two integer vectors, as a mathematical integer.
pub open spec fn dot(ax: int, ay: int, bx: int, by: int) -> int {
    ax * bx + ay * by
}

/// Exact dot product; the result of two `i32` vectors always fits an `i128`.
pub fn int_dot(v1: Vector, v2: Vector) -> (r: i128)
    ensures
        r == dot(v1.x as int, v1.y as int, v2.x as int, v2.y as int),
{
    let a = v1.x as i128;
    let b = v2.x as i128;
    let c = v1.y as i128;
    let d = v2.y as i128;
    assert(-0x4000_0000_0000_0000 <= a * b <= 0x4000_0000_0000_0000) by (nonlinear_arith)
        requires
            -0x8000_0000 <= a < 0x8000_0000,
            -0x8000_0000 <= b < 0x8000_0000,
    ;
    assert(-0x4000_0000_0000_0000 <= c * d <= 0x4000_0000_0000_0000) by (nonlinear_arith)
        requires
            -0x8000_0000 <= c < 0x8000_0000,
            -0x8000_0000 <= d < 0x8000_0000,
    ;
    a * b + c * d
}

} // verus!
