use vstd::prelude::*;

verus! {

/// A location on the integer grid of the plane.
#[derive(Clone, Copy, Debug, PartialEq, Eq, Structural)]
pub struct Point {
    pub x: i32,
    pub y: i32,
}

/// The number of axes the index cycles through.
pub const DIMENSION: usize = 2;

/// The axis a node at `depth` splits on: 0 is x, 1 is y.
pub open spec fn axis_of(depth: nat) -> nat {
    depth % 2
}

/// The coordinate of `p` on `axis`.
pub open spec fn coord(p: Point, axis: nat) -> int {
    if axis == 0 {
        p.x as int
    } else {
        p.y as int
    }
}

/// The square of the Euclidean distance between two points.
pub open spec fn dist_sq(a: Point, b: Point) -> nat {
    ((a.x - b.x) * (a.x - b.x) + (a.y - b.y) * (a.y - b.y)) as nat
}

/// The square of the distance between `a` and the line through `b` that is
/// perpendicular to `axis`.
pub open spec fn gap_sq(a: Point, b: Point, axis: nat) -> nat {
    ((coord(a, axis) - coord(b, axis)) * (coord(a, axis) - coord(b, axis))) as nat
}

/// The square of a difference of two coordinates fits in 64 bits.
pub proof fn lemma_square_bound(a: int, b: int)
    requires
        i32::MIN <= a <= i32::MAX,
        i32::MIN <= b <= i32::MAX,
    ensures
        0 <= (a - b) * (a - b) <= 0xFFFF_FFFE_0000_0001,
{
    let d = a - b;
    assert(0 <= d * d <= 0xFFFF_FFFF * 0xFFFF_FFFF) by (nonlinear_arith)
        requires
            -0xFFFF_FFFF <= d <= 0xFFFF_FFFF,
    ;
}

/// A point is never closer than its gap to a line through the other point.
pub proof fn lemma_gap_at_most_dist(a: Point, b: Point, axis: nat)
    ensures
        gap_sq(a, b, axis) <= dist_sq(a, b),
{
    let dx = a.x - b.x;
    let dy = a.y - b.y;
    assert(0 <= dx * dx && 0 <= dy * dy) by (nonlinear_arith);
}

/// The gap is the plain square of the difference of the coordinates, in
/// either order.
pub proof fn lemma_gap_sq_value(a: Point, b: Point, axis: nat)
    ensures
        gap_sq(a, b, axis) == (coord(a, axis) - coord(b, axis)) * (coord(a, axis) - coord(b, axis)),
        gap_sq(a, b, axis) == (coord(b, axis) - coord(a, axis)) * (coord(b, axis) - coord(a, axis)),
{
    let d = coord(a, axis) - coord(b, axis);
    let e = coord(b, axis) - coord(a, axis);
    assert(0 <= d * d && d * d == e * e) by (nonlinear_arith)
        requires
            e == -d,
    ;
}

/// Squares grow with the distance from zero.
pub proof fn lemma_square_monotone(near: int, far: int)
    requires
        0 <= near <= far,
    ensures
        near * near <= far * far,
{
    assert(near * near <= far * far) by (nonlinear_arith)
        requires
            0 <= near <= far,
    ;
}

/// The coordinate of `p` that a node at `depth` branches on.
pub fn axis_coord(p: Point, depth: usize) -> (c: i32)
    ensures
        c == coord(p, axis_of(depth as nat)),
{
    if depth % DIMENSION == 0 {
        p.x
    } else {
        p.y
    }
}

/// Squares the difference of two coordinates.
pub fn square_diff(a: i32, b: i32) -> (g: u128)
    ensures
        g == (a - b) * (a - b),
        g <= 0xFFFF_FFFE_0000_0001,
{
    let wide: i64 = a as i64 - b as i64;
    let d: u64 = if wide < 0 {
        (-wide) as u64
    } else {
        wide as u64
    };
    proof {
        lemma_square_bound(a as int, b as int);
        assert(d * d == (a - b) * (a - b)) by (nonlinear_arith)
            requires
                d == a - b || d == b - a,
        ;
    }
    (d as u128) * (d as u128)
}

/// The square of the Euclidean distance between `a` and `b`.
pub fn distance_squared(a: Point, b: Point) -> (d: u128)
    ensures
        d == dist_sq(a, b),
{
    let dx: u128 = square_diff(a.x, b.x);
    let dy: u128 = square_diff(a.y, b.y);
    dx + dy
}

/// The square of the distance from `a` to the splitting line of a node at
/// `depth` that sits at `b`.
pub fn gap_squared(a: Point, b: Point, depth: usize) -> (g: u128)
    ensures
        g == gap_sq(a, b, axis_of(depth as nat)),
{
    square_diff(axis_coord(a, depth), axis_coord(b, depth))
}

} // verus!
