//! Integer grid coordinates and the squared-distance measure the search uses.

use vstd::prelude::*;

verus! {

/// An integer 2D grid position.
#[derive(Clone, Copy, PartialEq, Eq, Structural, Debug, Hash)]
pub struct Coord {
    pub x: i32,
    pub y: i32,
}

/// Squared Euclidean distance between two coordinates, as a mathematical
/// integer (no overflow at any i32 coordinates).
pub open spec fn spec_dist_sq(a: Coord, b: Coord) -> int {
    (a.x - b.x) * (a.x - b.x) + (a.y - b.y) * (a.y - b.y)
}

/// Two coordinates are orthogonally adjacent exactly when their squared
/// distance is 1: one step along one axis.
pub open spec fn spec_adjacent(a: Coord, b: Coord) -> bool {
    spec_dist_sq(a, b) == 1
}

/// `|x|` for spec arithmetic.
pub open spec fn abs_int(a: int) -> int {
    if a >= 0 {
        a
    } else {
        -a
    }
}

/// Manhattan distance; bounds how far the search can wander per step.
pub open spec fn manhattan(a: Coord, b: Coord) -> int {
    abs_int(a.x - b.x) + abs_int(a.y - b.y)
}

proof fn lemma_square_bound(d: int)
    requires
        -0x1_0000_0000 <= d <= 0x1_0000_0000,
    ensures
        0 <= d * d <= 0x1_0000_0000_0000_0000,
{
    assert(0 <= d * d <= 0x1_0000_0000_0000_0000) by (nonlinear_arith)
        requires
            -0x1_0000_0000 <= d <= 0x1_0000_0000,
    ;
}

/// Squared distance does not depend on the order of its arguments.
pub proof fn lemma_dist_sq_symmetric(a: Coord, b: Coord)
    ensures
        spec_dist_sq(a, b) == spec_dist_sq(b, a),
{
    assert((a.x - b.x) * (a.x - b.x) == (b.x - a.x) * (b.x - a.x)) by (nonlinear_arith);
    assert((a.y - b.y) * (a.y - b.y) == (b.y - a.y) * (b.y - a.y)) by (nonlinear_arith);
}

/// Squared distance is never negative.
pub proof fn lemma_dist_sq_nonneg(a: Coord, b: Coord)
    ensures
        spec_dist_sq(a, b) >= 0,
{
    assert((a.x - b.x) * (a.x - b.x) >= 0) by (nonlinear_arith);
    assert((a.y - b.y) * (a.y - b.y) >= 0) by (nonlinear_arith);
}

/// Only a coordinate itself is at squared distance zero from it.
pub proof fn lemma_dist_sq_zero(a: Coord, b: Coord)
    requires
        spec_dist_sq(a, b) == 0,
    ensures
        a == b,
{
    let dx = a.x - b.x;
    let dy = a.y - b.y;
    assert(dx * dx >= 0 && dy * dy >= 0) by (nonlinear_arith);
    assert(dx != 0 ==> dx * dx > 0) by (nonlinear_arith);
    assert(dy != 0 ==> dy * dy > 0) by (nonlinear_arith);
}

/// An adjacent coordinate is one of the four orthogonal neighbours: a single
/// step along exactly one axis.
pub proof fn lemma_adjacent_cases(a: Coord, c: Coord)
    requires
        spec_adjacent(a, c),
    ensures
        (c.x == a.x + 1 && c.y == a.y) || (c.x == a.x - 1 && c.y == a.y) || (c.y == a.y + 1 && c.x
            == a.x) || (c.y == a.y - 1 && c.x == a.x),
{
    let dx = a.x - c.x;
    let dy = a.y - c.y;
    assert(dx * dx + dy * dy == 1);
    assert(dx * dx >= 0 && dy * dy >= 0) by (nonlinear_arith);
    assert((dx >= 2 || dx <= -2) ==> dx * dx >= 4) by (nonlinear_arith);
    assert((dy >= 2 || dy <= -2) ==> dy * dy >= 4) by (nonlinear_arith);
    assert(-1 <= dx <= 1 && -1 <= dy <= 1);
    assert(dx * dx == (if dx == 0 { 0int } else { 1int })) by (nonlinear_arith)
        requires
            -1 <= dx <= 1,
    ;
    assert(dy * dy == (if dy == 0 { 0int } else { 1int })) by (nonlinear_arith)
        requires
            -1 <= dy <= 1,
    ;
}

/// A single step along one axis lands on an adjacent coordinate.
pub proof fn lemma_step_adjacent(a: Coord, b: Coord)
    requires
        (b.x == a.x + 1 && b.y == a.y) || (b.x == a.x - 1 && b.y == a.y) || (b.y == a.y + 1
            && b.x == a.x) || (b.y == a.y - 1 && b.x == a.x),
    ensures
        spec_adjacent(a, b),
{
    let dx = a.x - b.x;
    let dy = a.y - b.y;
    assert((dx == 0 || dx == 1 || dx == -1) && (dy == 0 || dy == 1 || dy == -1) && abs_int(dx)
        + abs_int(dy) == 1 ==> dx * dx + dy * dy == 1) by (nonlinear_arith);
}

impl Coord {
    /// Builds the coordinate (x, y).
    pub fn new(x: i32, y: i32) -> (c: Coord)
        ensures
            c == (Coord { x, y }),
    {
        Coord { x, y }
    }

    /// Squared Euclidean distance to `other`; exact for all i32 coordinates.
    pub fn distance_squared(self, other: Coord) -> (d: i128)
        ensures
            d == spec_dist_sq(self, other),
    {
        let dx: i128 = self.x as i128 - other.x as i128;
        let dy: i128 = self.y as i128 - other.y as i128;
        proof {
            lemma_square_bound(dx as int);
            lemma_square_bound(dy as int);
        }
        dx * dx + dy * dy
    }
}

} // verus!
