//! Lattice points and the vector arithmetic on them.

use vstd::prelude::*;
use crate::arith::lemma_mul_range;
use crate::arith::lemma_square_range;

verus! {

/// Lattice steps per world unit: positions are fixed-point numbers with
/// three decimal places.
pub const UNIT: i32 = 1000;

/// Largest magnitude of a coordinate. With coordinates in
/// `-COORD_MAX ..= COORD_MAX` every product the geometry forms fits in 128
/// bits.
pub const COORD_MAX: i32 = 0x4000_0000;

/// A position on the lattice.
#[derive(Clone, Copy, Debug, PartialEq, Eq, Structural)]
pub struct Point2 {
    pub x: i32,
    pub y: i32,
}

/// An element of a flattened path: a vertex, or the marker that lifts the
/// pen between two disjoint sub-paths.
#[derive(Clone, Copy, Debug, PartialEq, Eq, Structural)]
pub enum PathPoint {
    Vertex(Point2),
    Break,
}

/// Whether one coordinate lies in the supported range.
pub open spec fn coord_in_range(c: int) -> bool {
    -COORD_MAX <= c <= COORD_MAX
}

/// Cross product of the vectors `(ax, ay)` and `(bx, by)`.
pub open spec fn cross_vec(ax: int, ay: int, bx: int, by: int) -> int {
    ax * by - ay * bx
}

/// Cross product of the vectors `o -> a` and `o -> b`.
pub open spec fn cross(o: Point2, a: Point2, b: Point2) -> int {
    cross_vec(a.x - o.x, a.y - o.y, b.x - o.x, b.y - o.y)
}

/// Dot product of the vectors `o -> a` and `o -> b`.
pub open spec fn dot(o: Point2, a: Point2, b: Point2) -> int {
    (a.x - o.x) * (b.x - o.x) + (a.y - o.y) * (b.y - o.y)
}

/// Squared Euclidean distance between two points.
pub open spec fn dist_sq(a: Point2, b: Point2) -> int {
    (b.x - a.x) * (b.x - a.x) + (b.y - a.y) * (b.y - a.y)
}

/// Whether every point of a sequence lies in the supported range.
pub open spec fn all_in_range(points: Seq<Point2>) -> bool {
    forall|i: int| 0 <= i < points.len() ==> (#[trigger] points[i]).in_range()
}

impl Point2 {
    /// Whether both coordinates lie in the supported range.
    pub open spec fn in_range(self) -> bool {
        coord_in_range(self.x as int) && coord_in_range(self.y as int)
    }

    /// The origin.
    pub fn zero() -> (p: Point2)
        ensures
            p == (Point2 { x: 0, y: 0 }),
            p.in_range(),
    {
        Point2 { x: 0, y: 0 }
    }

    /// The point with the given coordinates.
    pub fn new(x: i32, y: i32) -> (p: Point2)
        ensures
            p == (Point2 { x, y }),
    {
        Point2 { x, y }
    }

    /// Executable form of [`Point2::in_range`].
    pub fn is_in_range(&self) -> (b: bool)
        ensures
            b == self.in_range(),
    {
        -COORD_MAX <= self.x && self.x <= COORD_MAX && -COORD_MAX <= self.y && self.y <= COORD_MAX
    }

    /// The point with both coordinates clamped into the supported range.
    pub fn clamped(x: i128, y: i128) -> (p: Point2)
        ensures
            p.in_range(),
            p.x == clamp_coord(x as int),
            p.y == clamp_coord(y as int),
    {
        Point2 { x: clamp_to_range(x), y: clamp_to_range(y) }
    }
}

/// The nearest supported coordinate to `c`.
pub open spec fn clamp_coord(c: int) -> int {
    if c < -COORD_MAX {
        -COORD_MAX as int
    } else if c > COORD_MAX {
        COORD_MAX as int
    } else {
        c
    }
}

fn clamp_to_range(c: i128) -> (r: i32)
    ensures
        r == clamp_coord(c as int),
{
    if c < -(COORD_MAX as i128) {
        -COORD_MAX
    } else if c > COORD_MAX as i128 {
        COORD_MAX
    } else {
        c as i32
    }
}

/// Bounds of the three products for points in range.
pub proof fn lemma_product_bounds(o: Point2, a: Point2, b: Point2)
    requires
        o.in_range(),
        a.in_range(),
        b.in_range(),
    ensures
        -0x8000_0000_0000_0000 <= cross(o, a, b) <= 0x8000_0000_0000_0000,
        -0x8000_0000_0000_0000 <= dot(o, a, b) <= 0x8000_0000_0000_0000,
        0 <= dist_sq(o, a) <= 0x8000_0000_0000_0000,
{
    let m: int = 0x8000_0000;
    lemma_mul_range(a.x - o.x, b.y - o.y, m, m);
    lemma_mul_range(a.y - o.y, b.x - o.x, m, m);
    lemma_mul_range(a.x - o.x, b.x - o.x, m, m);
    lemma_mul_range(a.y - o.y, b.y - o.y, m, m);
    lemma_square_range(a.x - o.x, m);
    lemma_square_range(a.y - o.y, m);
    assert(m * m == 0x4000_0000_0000_0000);
}

/// Executable form of [`cross_vec`], for differences of points in range.
pub fn cross_vec_of(ax: i64, ay: i64, bx: i64, by: i64) -> (c: i128)
    requires
        -0x8000_0000 <= ax <= 0x8000_0000,
        -0x8000_0000 <= ay <= 0x8000_0000,
        -0x8000_0000 <= bx <= 0x8000_0000,
        -0x8000_0000 <= by <= 0x8000_0000,
    ensures
        c == cross_vec(ax as int, ay as int, bx as int, by as int),
        -0x8000_0000_0000_0000 <= c <= 0x8000_0000_0000_0000,
{
    proof {
        let m: int = 0x8000_0000;
        lemma_mul_range(ax as int, by as int, m, m);
        lemma_mul_range(ay as int, bx as int, m, m);
        assert(m * m == 0x4000_0000_0000_0000);
    }
    (ax as i128) * (by as i128) - (ay as i128) * (bx as i128)
}

/// Executable form of [`cross`].
pub fn cross_of(o: Point2, a: Point2, b: Point2) -> (c: i128)
    requires
        o.in_range(),
        a.in_range(),
        b.in_range(),
    ensures
        c == cross(o, a, b),
        -0x8000_0000_0000_0000 <= c <= 0x8000_0000_0000_0000,
{
    cross_vec_of(
        a.x as i64 - o.x as i64,
        a.y as i64 - o.y as i64,
        b.x as i64 - o.x as i64,
        b.y as i64 - o.y as i64,
    )
}

/// Executable form of [`dot`].
pub fn dot_of(o: Point2, a: Point2, b: Point2) -> (d: i128)
    requires
        o.in_range(),
        a.in_range(),
        b.in_range(),
    ensures
        d == dot(o, a, b),
{
    let ax: i128 = a.x as i128 - o.x as i128;
    let ay: i128 = a.y as i128 - o.y as i128;
    let bx: i128 = b.x as i128 - o.x as i128;
    let by: i128 = b.y as i128 - o.y as i128;
    proof {
        let m: int = 0x8000_0000;
        lemma_mul_range(ax as int, bx as int, m, m);
        lemma_mul_range(ay as int, by as int, m, m);
        assert(m * m == 0x4000_0000_0000_0000);
    }
    ax * bx + ay * by
}

/// Executable form of [`dist_sq`].
pub fn dist_sq_of(a: Point2, b: Point2) -> (d: u128)
    requires
        a.in_range(),
        b.in_range(),
    ensures
        d == dist_sq(a, b),
        d <= 0x8000_0000_0000_0000,
{
    let dx: i128 = b.x as i128 - a.x as i128;
    let dy: i128 = b.y as i128 - a.y as i128;
    proof {
        let m: int = 0x8000_0000;
        lemma_square_range(dx as int, m);
        lemma_square_range(dy as int, m);
        assert(m * m == 0x4000_0000_0000_0000);
    }
    (dx * dx + dy * dy) as u128
}

} // verus!
