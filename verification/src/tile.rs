//! A single colored cell on the grid.

use vstd::prelude::*;
use crate::vector2::Vector2;

verus! {

/// The display color of a tile. It carries no game logic: collision,
/// clearing and scoring never look at it.
#[derive(Clone, Copy, PartialEq, Eq, Structural, Debug)]
pub enum TileColor {
    White,
    Yellow,
    Blue,
    Red,
    Green,
    Purple,
    Gray,
}

/// One cell: a grid position and a display color.
#[derive(Clone, Copy, PartialEq, Eq, Structural, Debug)]
pub struct Tile {
    pub color: TileColor,
    pub pos: Vector2,
}

impl Tile {
    pub fn new(x: i32, y: i32) -> (t: Tile)
        ensures
            t.color == TileColor::White,
            t.pos.x == x,
            t.pos.y == y,
    {
        Tile { color: TileColor::White, pos: Vector2::new(x, y) }
    }

    pub fn new_col(x: i32, y: i32, color: TileColor) -> (t: Tile)
        ensures
            t.color == color,
            t.pos.x == x,
            t.pos.y == y,
    {
        Tile { color, pos: Vector2::new(x, y) }
    }
}

} // verus!
