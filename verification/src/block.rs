//! The falling piece: a group of colored cells sharing one shape.

use vstd::prelude::*;
use crate::tile::{Tile, TileColor};
use crate::vector2::Vector2;

verus! {

/// The cells produced by scanning the first `n` of the 16 mask positions in
/// row-major order: position `k` is row `k / 4`, column `k % 4`, and an
/// occupied position becomes a tile at column `off + k % 4`, row `k / 4`.
pub open spec fn mask_cells_prefix(
    rows: Seq<Seq<bool>>,
    color: TileColor,
    off: int,
    n: int,
) -> Seq<Tile>
    decreases n,
{
    if n <= 0 {
        Seq::empty()
    } else {
        let prev = mask_cells_prefix(rows, color, off, n - 1);
        let y = (n - 1) / 4;
        let x = (n - 1) % 4;
        if rows[y][x] {
            prev.push(Tile { color, pos: Vector2 { x: (x + off) as i32, y: y as i32 } })
        } else {
            prev
        }
    }
}

/// All cells of a 4x4 mask, as tiles whose columns are shifted right by `off`.
pub open spec fn mask_cells(rows: Seq<Seq<bool>>, color: TileColor, off: int) -> Seq<Tile> {
    mask_cells_prefix(rows, color, off, 16)
}

/// The falling (or previewed) piece. `null` means "no piece": the signal for
/// the controller to spawn the next one. `placed` is kept for parity with the
/// board's bookkeeping; nothing reads it.
#[derive(Clone)]
pub struct Block {
    pub tiles: Vec<Tile>,
    pub placed: bool,
    pub null: bool,
}

impl Block {
    /// Materializes the mask's occupied cells in board coordinates, shifted
    /// right by 3 columns so the piece spawns near the middle of the board.
    pub fn new(color: TileColor, tiles: [[bool; 4]; 4]) -> (b: Block)
        ensures
            b.tiles@ == mask_cells(tiles.deep_view(), color, 3),
            !b.placed,
            !b.null,
    {
        Block { tiles: Self::cells_from_mask(color, tiles, 3), placed: false, null: false }
    }

    /// The same cells with no horizontal offset, for the sidebar preview.
    pub fn new_preview(color: TileColor, tiles: [[bool; 4]; 4]) -> (b: Block)
        ensures
            b.tiles@ == mask_cells(tiles.deep_view(), color, 0),
            !b.placed,
            !b.null,
    {
        Block { tiles: Self::cells_from_mask(color, tiles, 0), placed: false, null: false }
    }

    /// No piece at all: zero cells and the `null` flag set.
    pub fn empty() -> (b: Block)
        ensures
            b.tiles@ == Seq::<Tile>::empty(),
            !b.placed,
            b.null,
    {
        Block { tiles: Vec::new(), placed: false, null: true }
    }

    fn cells_from_mask(color: TileColor, tiles: [[bool; 4]; 4], off: i32) -> (v: Vec<Tile>)
        requires
            0 <= off <= 3,
        ensures
            v@ == mask_cells(tiles.deep_view(), color, off as int),
    {
        let ghost rows = tiles.deep_view();
        let mut result_vec: Vec<Tile> = Vec::new();
        let mut y: usize = 0;
        while y < 4
            invariant
                0 <= off <= 3,
                y <= 4,
                rows == tiles.deep_view(),
                result_vec@ == mask_cells_prefix(rows, color, off as int, 4 * y),
            decreases 4 - y,
        {
            let mut x: usize = 0;
            while x < 4
                invariant
                    0 <= off <= 3,
                    y < 4,
                    x <= 4,
                    rows == tiles.deep_view(),
                    result_vec@ == mask_cells_prefix(rows, color, off as int, 4 * y + x),
                decreases 4 - x,
            {
                let is_tile = tiles[y][x];
                proof {
                    assert(rows[y as int][x as int] == tiles@[y as int]@[x as int]);
                    assert((4 * y + x + 1 - 1) / 4 == y as int);
                    assert((4 * y + x + 1 - 1) % 4 == x as int);
                }
                if is_tile {
                    result_vec.push(Tile::new_col(off + x as i32, y as i32, color));
                }
                x = x + 1;
            }
            y = y + 1;
        }
        proof {
            assert(4 * y == 16);
        }
        result_vec
    }
}

} // verus!
