//! Integer 2D grid coordinates and the 90-degree rotation primitive.

use vstd::prelude::*;

verus! {

/// A point on the integer grid: column `x`, row `y` (rows grow downward).
#[derive(Clone, Copy, PartialEq, Eq, Structural, Debug)]
pub struct Vector2 {
    pub x: i32,
    pub y: i32,
}

impl Vector2 {
    pub fn new(x: i32, y: i32) -> (v: Vector2)
        ensures
            v.x == x,
            v.y == y,
    {
        Vector2 { x, y }
    }
}

/// Column of `p` rotated 90 degrees about `(cx, cy)`.
pub open spec fn rotated_x(cx: int, cy: int, p: Vector2) -> int {
    cx - (p.y - cy)
}

/// Row of `p` rotated 90 degrees about `(cx, cy)`.
pub open spec fn rotated_y(cx: int, cy: int, p: Vector2) -> int {
    cy + (p.x - cx)
}

/// Rotates `p` by a quarter turn about the center `(cx, cy)`.
/// The `angle` argument records the requested direction but does not change
/// the outcome: the turn is always in the same direction.
pub fn rotate_point(cx: i32, cy: i32, angle: i32, p: Vector2) -> (r: Vector2)
    requires
        -1_000_000 <= cx <= 1_000_000,
        -1_000_000 <= cy <= 1_000_000,
        -1_000_000 <= p.x <= 1_000_000,
        -1_000_000 <= p.y <= 1_000_000,
    ensures
        r.x == rotated_x(cx as int, cy as int, p),
        r.y == rotated_y(cx as int, cy as int, p),
{
    let local = Vector2::new(p.x - cx, p.y - cy);
    let turned = Vector2::new(-local.y, local.x);
    Vector2::new(turned.x + cx, turned.y + cy)
}

} // verus!
