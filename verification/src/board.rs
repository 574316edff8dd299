//! The settled board: collision queries, gravity, merging and row clearing.

use vstd::prelude::*;
use crate::block::Block;
use crate::tile::Tile;
use crate::vector2::Vector2;

verus! {

/// True when some settled tile sits at column `x`, row `y`.
pub open spec fn occupied(settled: Seq<Tile>, x: int, y: int) -> bool {
    exists|i: int| 0 <= i < settled.len() && settled[i].pos.x == x && settled[i].pos.y == y
}

/// True when `t` cannot move down one row: it rests on the floor (row 19)
/// or on a settled tile directly beneath it.
pub open spec fn blocked_below(t: Tile, settled: Seq<Tile>) -> bool {
    t.pos.y >= 19 || occupied(settled, t.pos.x as int, t.pos.y + 1)
}

/// True when every cell of the piece may move down one row.
pub open spec fn can_descend(tiles: Seq<Tile>, settled: Seq<Tile>) -> bool {
    forall|i: int| 0 <= i < tiles.len() ==> !blocked_below(#[trigger] tiles[i], settled)
}

/// How many tiles sit in `row`.
pub open spec fn tiles_in_row(tiles: Seq<Tile>, row: int) -> nat
    decreases tiles.len(),
{
    if tiles.len() == 0 {
        0
    } else {
        tiles_in_row(tiles.drop_last(), row) + if tiles.last().pos.y == row {
            1nat
        } else {
            0nat
        }
    }
}

/// A tile strictly above `row` falls one row; any other tile is unchanged.
pub open spec fn shift_if_above(t: Tile, row: int) -> Tile {
    if t.pos.y < row {
        Tile { color: t.color, pos: Vector2 { x: t.pos.x, y: (t.pos.y + 1) as i32 } }
    } else {
        t
    }
}

/// The board after `row` is cleared: the row's tiles are deleted, every tile
/// above it falls one row, and tiles below it are untouched. Order is kept.
pub open spec fn clear_row(tiles: Seq<Tile>, row: int) -> Seq<Tile>
    decreases tiles.len(),
{
    if tiles.len() == 0 {
        tiles
    } else {
        let rest = clear_row(tiles.drop_last(), row);
        let t = tiles.last();
        if t.pos.y == row {
            rest
        } else {
            rest.push(shift_if_above(t, row))
        }
    }
}

/// One step of the clearing sweep: `row` is cleared exactly when it holds at
/// least 10 tiles.
pub open spec fn step_row(tiles: Seq<Tile>, row: int) -> Seq<Tile> {
    if tiles_in_row(tiles, row) >= 10 {
        clear_row(tiles, row)
    } else {
        tiles
    }
}

/// The board after the sweep has visited rows `row`, `row + 1`, ..., 19 in order.
pub open spec fn sweep_rows_from(tiles: Seq<Tile>, row: int) -> Seq<Tile>
    decreases 20 - row,
{
    if row < 0 || row >= 20 {
        tiles
    } else {
        sweep_rows_from(step_row(tiles, row), row + 1)
    }
}

/// How many rows the sweep clears while visiting rows `row`, ..., 19 in order.
pub open spec fn rows_cleared_from(tiles: Seq<Tile>, row: int) -> int
    decreases 20 - row,
{
    if row < 0 || row >= 20 {
        0
    } else {
        (if tiles_in_row(tiles, row) >= 10 {
            1int
        } else {
            0int
        }) + rows_cleared_from(step_row(tiles, row), row + 1)
    }
}

/// The board after one whole merge-and-clear resolution.
pub open spec fn board_after_clears(tiles: Seq<Tile>) -> Seq<Tile> {
    sweep_rows_from(tiles, 0)
}

/// The number of rows cleared in one whole resolution: the combo size.
pub open spec fn lines_cleared(tiles: Seq<Tile>) -> int {
    rows_cleared_from(tiles, 0)
}

/// The larger of the previous maximum and this resolution's combo.
pub open spec fn combo_max(prev: int, combo: int) -> int {
    if combo > prev {
        combo
    } else {
        prev
    }
}

proof fn lemma_clear_row_shape(tiles: Seq<Tile>, row: int)
    ensures
        clear_row(tiles, row) == tiles.filter(|t: Tile| t.pos.y != row).map_values(
            |t: Tile| shift_if_above(t, row),
        ),
        tiles_in_row(tiles, row) <= tiles.len(),
        clear_row(tiles, row).len() == tiles.len() - tiles_in_row(tiles, row),
    decreases tiles.len(),
{
    reveal(Seq::filter);
    if tiles.len() == 0 {
        assert(tiles.filter(|t: Tile| t.pos.y != row) =~= Seq::<Tile>::empty());
        assert(tiles.filter(|t: Tile| t.pos.y != row).map_values(|t: Tile| shift_if_above(t, row))
            =~= Seq::<Tile>::empty());
        assert(clear_row(tiles, row) =~= Seq::<Tile>::empty());
    } else {
        lemma_clear_row_shape(tiles.drop_last(), row);
        let sub = tiles.drop_last().filter(|t: Tile| t.pos.y != row);
        if tiles.last().pos.y != row {
            assert(tiles.filter(|t: Tile| t.pos.y != row) == sub.push(tiles.last()));
            assert(sub.push(tiles.last()).map_values(|t: Tile| shift_if_above(t, row)) =~= sub.map_values(
                |t: Tile| shift_if_above(t, row),
            ).push(shift_if_above(tiles.last(), row)));
        } else {
            assert(tiles.filter(|t: Tile| t.pos.y != row) == sub);
        }
    }
}

/// Law of the clearing step: a row holding exactly 10 tiles is cleared, and
/// the cleared board is the old board with exactly that row's 10 cells
/// deleted, every cell above the row moved down one row, and every cell
/// below the row untouched, in the order they were stored.
pub proof fn lemma_clear_row_exact(tiles: Seq<Tile>, row: int)
    requires
        tiles_in_row(tiles, row) == 10,
    ensures
        step_row(tiles, row) == clear_row(tiles, row),
        clear_row(tiles, row) == tiles.filter(|t: Tile| t.pos.y != row).map_values(
            |t: Tile| shift_if_above(t, row),
        ),
        clear_row(tiles, row).len() == tiles.len() - 10,
{
    lemma_clear_row_shape(tiles, row);
}

pub proof fn lemma_rows_cleared_bounds(tiles: Seq<Tile>, row: int)
    requires
        0 <= row <= 20,
    ensures
        0 <= rows_cleared_from(tiles, row) <= 20 - row,
    decreases 20 - row,
{
    if row < 20 {
        lemma_rows_cleared_bounds(step_row(tiles, row), row + 1);
    }
}

/// Sweeps the whole board for complete rows, bottom of the pass at row 19.
/// Each row holding at least 10 tiles is removed, everything above it falls
/// one row, and the score gains 125 points per cleared row; the combo is the
/// number of rows cleared in this single call.
#[verifier::rlimit(50)]
pub fn check_lines(placed_tiles: &mut Vec<Tile>, lines: &mut i32, max_combo: &mut i32, score: &mut i32)
    requires
        *old(lines) <= i32::MAX - 20,
        *old(score) <= i32::MAX - 2500,
    ensures
        final(placed_tiles)@ == board_after_clears(old(placed_tiles)@),
        *final(lines) == *old(lines) + lines_cleared(old(placed_tiles)@),
        *final(score) == *old(score) + 125 * lines_cleared(old(placed_tiles)@),
        *final(max_combo) == combo_max(*old(max_combo) as int, lines_cleared(old(placed_tiles)@)),
{
    let ghost orig = placed_tiles@;
    let ghost lines0 = *lines;
    let mut combo: i32 = 0;
    let mut row: i32 = 0;
    while row < 20
        invariant
            0 <= row <= 20,
            0 <= combo <= row,
            sweep_rows_from(orig, 0) == sweep_rows_from(placed_tiles@, row as int),
            rows_cleared_from(orig, 0) == combo + rows_cleared_from(placed_tiles@, row as int),
            *lines == lines0 + combo,
            lines0 <= i32::MAX - 20,
        decreases 20 - row,
    {
        let ghost before = placed_tiles@;
        let mut row_tiles: usize = 0;
        let mut i: usize = 0;
        while i < placed_tiles.len()
            invariant
                i <= placed_tiles.len(),
                row_tiles <= i,
                row_tiles == tiles_in_row(placed_tiles@.take(i as int), row as int),
            decreases placed_tiles.len() - i,
        {
            proof {
                assert(placed_tiles@.take(i + 1).drop_last() =~= placed_tiles@.take(i as int));
                assert(placed_tiles@.take(i + 1).last() == placed_tiles@[i as int]);
            }
            if placed_tiles[i].pos.y == row {
                row_tiles = row_tiles + 1;
            }
            i = i + 1;
        }
        proof {
            assert(placed_tiles@.take(placed_tiles@.len() as int) =~= placed_tiles@);
        }

        if row_tiles >= 10 {
            let mut new_tiles: Vec<Tile> = Vec::new();
            let mut j: usize = 0;
            while j < placed_tiles.len()
                invariant
                    j <= placed_tiles.len(),
                    row < 20,
                    placed_tiles@ == before,
                    new_tiles@ == clear_row(placed_tiles@.take(j as int), row as int),
                decreases placed_tiles.len() - j,
            {
                proof {
                    assert(placed_tiles@.take(j + 1).drop_last() =~= placed_tiles@.take(j as int));
                    assert(placed_tiles@.take(j + 1).last() == placed_tiles@[j as int]);
                }
                let t = placed_tiles[j];
                if t.pos.y != row {
                    if t.pos.y < row {
                        new_tiles.push(Tile { color: t.color, pos: Vector2 { x: t.pos.x, y: t.pos.y + 1 } });
                    } else {
                        new_tiles.push(t);
                    }
                }
                j = j + 1;
            }
            proof {
                assert(placed_tiles@.take(placed_tiles@.len() as int) =~= placed_tiles@);
                lemma_rows_cleared_bounds(clear_row(before, row as int), row + 1);
            }
            *placed_tiles = new_tiles;
            *lines = *lines + 1;
            combo = combo + 1;
        } else {
            proof {
                lemma_rows_cleared_bounds(placed_tiles@, row + 1);
            }
        }
        row = row + 1;
    }
    if combo > *max_combo {
        *max_combo = combo;
    }
    proof {
        lemma_rows_cleared_bounds(orig, 0);
    }
    *score = *score + 125 * combo;
}

/// `t` moved down one row.
pub open spec fn tile_down(t: Tile) -> Tile {
    Tile { color: t.color, pos: Vector2 { x: t.pos.x, y: (t.pos.y + 1) as i32 } }
}

/// Scans the settled tiles for one at column `x`, row `y`.
fn occupied_at(placed_tiles: &Vec<Tile>, x: i32, y: i32) -> (b: bool)
    ensures
        b == occupied(placed_tiles@, x as int, y as int),
{
    let mut found = false;
    let mut j: usize = 0;
    while j < placed_tiles.len()
        invariant
            j <= placed_tiles@.len(),
            found == occupied(placed_tiles@.take(j as int), x as int, y as int),
        decreases placed_tiles@.len() - j,
    {
        let p = placed_tiles[j];
        proof {
            assert(forall|k: int| 0 <= k < j + 1 ==> placed_tiles@.take(j + 1)[k] == placed_tiles@[k]);
        }
        if x == p.pos.x && y == p.pos.y {
            found = true;
            proof {
                assert(occupied(placed_tiles@.take(j + 1), x as int, y as int));
            }
        }
        proof {
            if found != occupied(placed_tiles@.take(j + 1), x as int, y as int) {
                let k = choose|k: int|
                    0 <= k < j + 1 && #[trigger] placed_tiles@.take(j + 1)[k].pos.x == x as int
                        && placed_tiles@.take(j + 1)[k].pos.y == y as int;
                assert(0 <= k < j ==> occupied(placed_tiles@.take(j as int), x as int, y as int));
            }
        }
        j = j + 1;
    }
    proof {
        assert(placed_tiles@.take(placed_tiles@.len() as int) =~= placed_tiles@);
    }
    found
}

/// Decides whether `t` rests on the floor or on a settled tile beneath it.
fn tile_blocked(t: Tile, placed_tiles: &Vec<Tile>) -> (b: bool)
    ensures
        b == blocked_below(t, placed_tiles@),
{
    if t.pos.y >= 19 {
        true
    } else {
        occupied_at(placed_tiles, t.pos.x, t.pos.y + 1)
    }
}

/// One gravity step. If every cell can descend, the piece falls one row and
/// nothing else changes. Otherwise the piece locks: its cells are appended to
/// the settled tiles, complete rows are cleared with their scoring, and the
/// piece is marked null so the controller spawns the next one.
pub fn move_block(
    block: &mut Block,
    placed_tiles: &mut Vec<Tile>,
    lines: &mut i32,
    max_combo: &mut i32,
    score: &mut i32,
)
    requires
        *old(lines) <= i32::MAX - 20,
        *old(score) <= i32::MAX - 2500,
    ensures
        final(block).placed == old(block).placed,
        can_descend(old(block).tiles@, old(placed_tiles)@) ==> {
            &&& final(block).tiles@ == old(block).tiles@.map_values(|t: Tile| tile_down(t))
            &&& final(block).null == old(block).null
            &&& final(placed_tiles)@ == old(placed_tiles)@
            &&& *final(lines) == *old(lines)
            &&& *final(max_combo) == *old(max_combo)
            &&& *final(score) == *old(score)
        },
        !can_descend(old(block).tiles@, old(placed_tiles)@) ==> {
            &&& final(block).tiles@ == old(block).tiles@
            &&& final(block).null
            &&& final(placed_tiles)@ == board_after_clears(
                old(placed_tiles)@ + old(block).tiles@,
            )
            &&& *final(lines) == *old(lines) + lines_cleared(
                old(placed_tiles)@ + old(block).tiles@,
            )
            &&& *final(score) == *old(score) + 125 * lines_cleared(
                old(placed_tiles)@ + old(block).tiles@,
            )
            &&& *final(max_combo) == combo_max(
                *old(max_combo) as int,
                lines_cleared(old(placed_tiles)@ + old(block).tiles@),
            )
        },
{
    let mut has_placed = false;
    let mut i: usize = 0;
    while i < block.tiles.len()
        invariant
            i <= block.tiles@.len(),
            has_placed == !can_descend(block.tiles@.take(i as int), placed_tiles@),
        decreases block.tiles@.len() - i,
    {
        let t = block.tiles[i];
        let b = tile_blocked(t, placed_tiles);
        proof {
            assert(forall|k: int| 0 <= k < i + 1 ==> block.tiles@.take(i + 1)[k] == block.tiles@[k]);
            assert(block.tiles@.take(i as int) =~= block.tiles@.take(i + 1).drop_last());
        }
        if b {
            has_placed = true;
        }
        proof {
            if !has_placed {
                assert(forall|k: int|
                    0 <= k < i + 1 ==> !blocked_below(#[trigger] block.tiles@.take(i + 1)[k], placed_tiles@));
            } else {
                if b {
                    assert(blocked_below(block.tiles@.take(i + 1)[i as int], placed_tiles@));
                } else {
                    let k = choose|k: int|
                        0 <= k < i && blocked_below(#[trigger] block.tiles@.take(i as int)[k], placed_tiles@);
                    assert(blocked_below(block.tiles@.take(i + 1)[k], placed_tiles@));
                }
            }
        }
        i = i + 1;
    }
    proof {
        assert(block.tiles@.take(block.tiles@.len() as int) =~= block.tiles@);
    }

    if !has_placed {
        let ghost tiles0 = block.tiles@;
        let mut new_tiles: Vec<Tile> = Vec::new();
        let mut k: usize = 0;
        while k < block.tiles.len()
            invariant
                k <= block.tiles@.len(),
                block.tiles@ == tiles0,
                can_descend(tiles0, placed_tiles@),
                new_tiles@.len() == k,
                forall|m: int| 0 <= m < k ==> new_tiles@[m] == tile_down(#[trigger] tiles0[m]),
            decreases block.tiles@.len() - k,
        {
            let t = block.tiles[k];
            proof {
                assert(!blocked_below(tiles0[k as int], placed_tiles@));
            }
            new_tiles.push(Tile { color: t.color, pos: Vector2 { x: t.pos.x, y: t.pos.y + 1 } });
            k = k + 1;
        }
        block.tiles = new_tiles;
        proof {
            assert(block.tiles@ =~= tiles0.map_values(|t: Tile| tile_down(t)));
        }
    } else {
        let ghost placed0 = placed_tiles@;
        let mut k: usize = 0;
        while k < block.tiles.len()
            invariant
                k <= block.tiles@.len(),
                placed_tiles@ == placed0 + block.tiles@.take(k as int),
            decreases block.tiles@.len() - k,
        {
            let t = block.tiles[k];
            placed_tiles.push(t);
            proof {
                assert(placed0 + block.tiles@.take(k + 1) =~= (placed0 + block.tiles@.take(
                    k as int,
                )).push(t));
            }
            k = k + 1;
        }
        proof {
            assert(placed_tiles@ =~= placed0 + block.tiles@);
        }
        check_lines(placed_tiles, lines, max_combo, score);
        block.null = true;
    }
}

/// True when `t` itself may move one column in direction `dir` (`1` right,
/// `-1` left): the destination column stays on the board on that side and no
/// settled tile occupies it.
pub open spec fn tile_shift_ok(t: Tile, settled: Seq<Tile>, dir: int) -> bool {
    if dir == 1 {
        t.pos.x < 9 && !occupied(settled, t.pos.x + 1, t.pos.y as int)
    } else if dir == -1 {
        t.pos.x > 0 && !occupied(settled, t.pos.x - 1, t.pos.y as int)
    } else {
        true
    }
}

/// True when every cell of the piece may move one column in direction `dir`.
pub open spec fn can_shift(tiles: Seq<Tile>, settled: Seq<Tile>, dir: int) -> bool {
    forall|i: int| 0 <= i < tiles.len() ==> tile_shift_ok(#[trigger] tiles[i], settled, dir)
}

/// `t` moved one column in direction `dir`.
pub open spec fn tile_shifted(t: Tile, dir: int) -> Tile {
    Tile { color: t.color, pos: Vector2 { x: (t.pos.x + dir) as i32, y: t.pos.y } }
}

/// Attempts to move the piece one column in direction `hor_move` (`1` right,
/// `-1` left, `0` no request). All-or-nothing: if any cell would leave the
/// board on that side or land on a settled tile, no cell moves at all.
pub fn move_block_horizontal(block: &mut Block, placed_tiles: &Vec<Tile>, hor_move: i32)
    requires
        hor_move == -1 || hor_move == 0 || hor_move == 1,
    ensures
        final(block).null == old(block).null,
        final(block).placed == old(block).placed,
        hor_move == 0 || old(block).null ==> final(block).tiles@ == old(block).tiles@,
        hor_move != 0 && !old(block).null ==> final(block).tiles@ == if can_shift(
            old(block).tiles@,
            placed_tiles@,
            hor_move as int,
        ) {
            old(block).tiles@.map_values(|t: Tile| tile_shifted(t, hor_move as int))
        } else {
            old(block).tiles@
        },
{
    if hor_move == 0 {
        return ;
    }
    if block.null {
        return ;
    }

    let mut can_move = true;
    let mut i: usize = 0;
    while i < block.tiles.len()
        invariant
            i <= block.tiles@.len(),
            hor_move == -1 || hor_move == 1,
            can_move == can_shift(block.tiles@.take(i as int), placed_tiles@, hor_move as int),
        decreases block.tiles@.len() - i,
    {
        let t = block.tiles[i];
        let ok: bool;
        if hor_move == 1 {
            if t.pos.x >= 9 {
                ok = false;
            } else {
                ok = !occupied_at(placed_tiles, t.pos.x + 1, t.pos.y);
            }
        } else {
            if t.pos.x <= 0 {
                ok = false;
            } else {
                ok = !occupied_at(placed_tiles, t.pos.x - 1, t.pos.y);
            }
        }
        proof {
            assert(ok == tile_shift_ok(block.tiles@[i as int], placed_tiles@, hor_move as int));
            assert(forall|k: int| 0 <= k < i + 1 ==> block.tiles@.take(i + 1)[k] == block.tiles@[k]);
            assert(block.tiles@.take(i as int) =~= block.tiles@.take(i + 1).drop_last());
        }
        if !ok {
            can_move = false;
        }
        proof {
            if can_move {
                assert(forall|k: int|
                    0 <= k < i + 1 ==> tile_shift_ok(
                        #[trigger] block.tiles@.take(i + 1)[k],
                        placed_tiles@,
                        hor_move as int,
                    ));
            } else {
                if !ok {
                    assert(!tile_shift_ok(block.tiles@.take(i + 1)[i as int], placed_tiles@, hor_move as int));
                } else {
                    let k = choose|k: int|
                        0 <= k < i && !tile_shift_ok(
                            #[trigger] block.tiles@.take(i as int)[k],
                            placed_tiles@,
                            hor_move as int,
                        );
                    assert(!tile_shift_ok(block.tiles@.take(i + 1)[k], placed_tiles@, hor_move as int));
                }
            }
        }
        i = i + 1;
    }
    proof {
        assert(block.tiles@.take(block.tiles@.len() as int) =~= block.tiles@);
    }

    if can_move {
        let ghost tiles0 = block.tiles@;
        let mut new_tiles: Vec<Tile> = Vec::new();
        let mut k: usize = 0;
        while k < block.tiles.len()
            invariant
                k <= block.tiles@.len(),
                hor_move == -1 || hor_move == 1,
                block.tiles@ == tiles0,
                can_shift(tiles0, placed_tiles@, hor_move as int),
                new_tiles@.len() == k,
                forall|m: int|
                    0 <= m < k ==> new_tiles@[m] == tile_shifted(
                        #[trigger] tiles0[m],
                        hor_move as int,
                    ),
            decreases block.tiles@.len() - k,
        {
            let t = block.tiles[k];
            proof {
                assert(tile_shift_ok(tiles0[k as int], placed_tiles@, hor_move as int));
            }
            new_tiles.push(Tile { color: t.color, pos: Vector2 { x: t.pos.x + hor_move, y: t.pos.y } });
            k = k + 1;
        }
        block.tiles = new_tiles;
        proof {
            assert(block.tiles@ =~= tiles0.map_values(|t: Tile| tile_shifted(t, hor_move as int)));
        }
    }
}

/// True when some settled tile sits in column `x` strictly below row `y`.
pub open spec fn has_blocker(settled: Seq<Tile>, x: int, y: int) -> bool {
    exists|i: int| 0 <= i < settled.len() && settled[i].pos.x == x && settled[i].pos.y > y
}

/// The row of the first settled tile in column `x` strictly below row `y`,
/// or `2147483648` (one past any `i32` row) when the column is free below `y`.
pub open spec fn blocker_row(settled: Seq<Tile>, x: int, y: int) -> int
    decreases settled.len(),
{
    if settled.len() == 0 {
        2147483648
    } else {
        let rest = blocker_row(settled.drop_last(), x, y);
        let p = settled.last();
        if p.pos.x == x && p.pos.y > y && p.pos.y < rest {
            p.pos.y as int
        } else {
            rest
        }
    }
}

/// How far `t` may fall: to just above the first settled tile beneath it, or
/// to the floor (row 19) when its column is free below it.
pub open spec fn drop_dist(t: Tile, settled: Seq<Tile>) -> int {
    if blocker_row(settled, t.pos.x as int, t.pos.y as int) < 2147483648 {
        blocker_row(settled, t.pos.x as int, t.pos.y as int) - t.pos.y - 1
    } else {
        19 - t.pos.y
    }
}

/// The drop distance of the whole piece: the smallest drop distance over its
/// cells, starting from `i32::MAX` so that an empty piece moves nothing.
pub open spec fn min_drop(tiles: Seq<Tile>, settled: Seq<Tile>) -> int
    decreases tiles.len(),
{
    if tiles.len() == 0 {
        2147483647
    } else {
        let rest = min_drop(tiles.drop_last(), settled);
        let d = drop_dist(tiles.last(), settled);
        if d < rest {
            d
        } else {
            rest
        }
    }
}

/// `t` fallen by `d` rows.
pub open spec fn tile_fallen(t: Tile, d: int) -> Tile {
    Tile { color: t.color, pos: Vector2 { x: t.pos.x, y: (t.pos.y + d) as i32 } }
}

/// The piece after a hard drop: every cell fallen by the same distance, the
/// minimum of the cells' own drop distances.
pub open spec fn dropped_tiles(tiles: Seq<Tile>, settled: Seq<Tile>) -> Seq<Tile> {
    tiles.map_values(|t: Tile| tile_fallen(t, min_drop(tiles, settled)))
}

pub proof fn lemma_blocker_row_range(settled: Seq<Tile>, x: int, y: int, lo: int, hi: int)
    requires
        forall|i: int| 0 <= i < settled.len() ==> lo <= (#[trigger] settled[i]).pos.y <= hi,
    ensures
        has_blocker(settled, x, y) <==> blocker_row(settled, x, y) < 2147483648,
        has_blocker(settled, x, y) ==> y < blocker_row(settled, x, y)
            && lo <= blocker_row(settled, x, y) <= hi,
    decreases settled.len(),
{
    if settled.len() > 0 {
        lemma_blocker_row_range(settled.drop_last(), x, y, lo, hi);
        if has_blocker(settled, x, y) && !(settled.last().pos.x == x && settled.last().pos.y > y) {
            let i = choose|i: int|
                0 <= i < settled.len() && #[trigger] settled[i].pos.x == x && settled[i].pos.y > y;
            assert(settled.drop_last()[i] == settled[i]);
        }
    }
}

pub proof fn lemma_drop_dist_bounds(t: Tile, settled: Seq<Tile>)
    requires
        -1000 <= t.pos.y <= 1000,
        forall|i: int| 0 <= i < settled.len() ==> -1000 <= (#[trigger] settled[i]).pos.y <= 1000,
    ensures
        -981 <= drop_dist(t, settled) <= 1999,
{
    lemma_blocker_row_range(settled, t.pos.x as int, t.pos.y as int, -1000, 1000);
}

/// The piece drop distance is the minimum: it is no larger than any cell's
/// own drop distance, and (for a nonempty piece) some cell attains it.
pub proof fn lemma_min_drop_is_min(tiles: Seq<Tile>, settled: Seq<Tile>)
    requires
        forall|i: int| 0 <= i < tiles.len() ==> -1000 <= (#[trigger] tiles[i]).pos.y <= 1000,
        forall|i: int| 0 <= i < settled.len() ==> -1000 <= (#[trigger] settled[i]).pos.y <= 1000,
    ensures
        forall|i: int| 0 <= i < tiles.len() ==> min_drop(tiles, settled) <= drop_dist(
            #[trigger] tiles[i],
            settled,
        ),
        tiles.len() > 0 ==> exists|i: int|
            0 <= i < tiles.len() && min_drop(tiles, settled) == drop_dist(
                #[trigger] tiles[i],
                settled,
            ),
        tiles.len() > 0 ==> -981 <= min_drop(tiles, settled) <= 1999,
        min_drop(tiles, settled) <= 2147483647,
    decreases tiles.len(),
{
    if tiles.len() > 0 {
        assert(forall|i: int| 0 <= i < tiles.len() - 1 ==> tiles.drop_last()[i] == #[trigger] tiles[i]);
        lemma_min_drop_is_min(tiles.drop_last(), settled);
        lemma_drop_dist_bounds(tiles.last(), settled);
        if min_drop(tiles, settled) == drop_dist(tiles.last(), settled) {
            assert(tiles[tiles.len() - 1] == tiles.last());
        } else {
            let i = choose|i: int|
                0 <= i < tiles.drop_last().len() && min_drop(tiles.drop_last(), settled)
                    == drop_dist(#[trigger] tiles.drop_last()[i], settled);
            assert(min_drop(tiles, settled) == drop_dist(tiles[i], settled));
        }
    }
}

/// The hard drop: the whole piece falls rigidly by the drop distance of its
/// most constrained cell, locks there, and the merge-and-clear resolution
/// runs at once.
#[verifier::rlimit(50)]
pub fn move_block_instant(
    block: &mut Block,
    placed_tiles: &mut Vec<Tile>,
    lines: &mut i32,
    max_combo: &mut i32,
    score: &mut i32,
)
    requires
        forall|i: int| 0 <= i < old(block).tiles@.len()
            ==> -1000 <= (#[trigger] old(block).tiles@[i]).pos.y <= 1000,
        forall|i: int| 0 <= i < old(placed_tiles)@.len()
            ==> -1000 <= (#[trigger] old(placed_tiles)@[i]).pos.y <= 1000,
        *old(lines) <= i32::MAX - 20,
        *old(score) <= i32::MAX - 2500,
    ensures
        final(block).placed == old(block).placed,
        final(block).null,
        final(block).tiles@ == dropped_tiles(old(block).tiles@, old(placed_tiles)@),
        final(placed_tiles)@ == board_after_clears(
            old(placed_tiles)@ + dropped_tiles(old(block).tiles@, old(placed_tiles)@),
        ),
        *final(lines) == *old(lines) + lines_cleared(
            old(placed_tiles)@ + dropped_tiles(old(block).tiles@, old(placed_tiles)@),
        ),
        *final(score) == *old(score) + 125 * lines_cleared(
            old(placed_tiles)@ + dropped_tiles(old(block).tiles@, old(placed_tiles)@),
        ),
        *final(max_combo) == combo_max(
            *old(max_combo) as int,
            lines_cleared(
                old(placed_tiles)@ + dropped_tiles(old(block).tiles@, old(placed_tiles)@),
            ),
        ),
{
    let ghost tiles0 = block.tiles@;
    let ghost settled0 = placed_tiles@;
    let mut smallest_move_distance: i32 = i32::MAX;
    let mut i: usize = 0;
    while i < block.tiles.len()
        invariant
            i <= block.tiles@.len(),
            block.tiles@ == tiles0,
            placed_tiles@ == settled0,
            forall|m: int| 0 <= m < tiles0.len() ==> -1000 <= (#[trigger] tiles0[m]).pos.y <= 1000,
            forall|m: int| 0 <= m < settled0.len() ==> -1000 <= (#[trigger] settled0[m]).pos.y
                <= 1000,
            smallest_move_distance == min_drop(tiles0.take(i as int), settled0),
        decreases block.tiles@.len() - i,
    {
        let t = block.tiles[i];
        let mut touched_placed_tile = false;
        let mut best: i32 = i32::MAX;
        let mut j: usize = 0;
        while j < placed_tiles.len()
            invariant
                j <= placed_tiles@.len(),
                placed_tiles@ == settled0,
                t == tiles0[i as int],
                0 <= i < tiles0.len(),
                forall|m: int| 0 <= m < tiles0.len() ==> -1000 <= (#[trigger] tiles0[m]).pos.y
                    <= 1000,
                forall|m: int| 0 <= m < settled0.len() ==> -1000 <= (#[trigger] settled0[m]).pos.y
                    <= 1000,
                touched_placed_tile == has_blocker(
                    settled0.take(j as int),
                    t.pos.x as int,
                    t.pos.y as int,
                ),
                touched_placed_tile ==> best == blocker_row(
                    settled0.take(j as int),
                    t.pos.x as int,
                    t.pos.y as int,
                ),
                !touched_placed_tile ==> blocker_row(
                    settled0.take(j as int),
                    t.pos.x as int,
                    t.pos.y as int,
                ) == 2147483648,
                touched_placed_tile ==> -1000 <= best <= 1000,
            decreases placed_tiles@.len() - j,
        {
            let p = placed_tiles[j];
            proof {
                assert(forall|k: int| 0 <= k < j + 1 ==> settled0.take(j + 1)[k] == settled0[k]);
                assert(settled0.take(j as int) =~= settled0.take(j + 1).drop_last());
            }
            if t.pos.x == p.pos.x && t.pos.y < p.pos.y {
                if !touched_placed_tile || p.pos.y < best {
                    best = p.pos.y;
                }
                touched_placed_tile = true;
                proof {
                    assert(has_blocker(settled0.take(j + 1), t.pos.x as int, t.pos.y as int));
                }
            } else {
                proof {
                    if has_blocker(settled0.take(j + 1), t.pos.x as int, t.pos.y as int)
                        && !touched_placed_tile {
                        let k = choose|k: int|
                            0 <= k < j + 1 && #[trigger] settled0.take(j + 1)[k].pos.x == t.pos.x as int
                                && settled0.take(j + 1)[k].pos.y > t.pos.y as int;
                        assert(has_blocker(settled0.take(j as int), t.pos.x as int, t.pos.y as int));
                    }
                }
            }
            j = j + 1;
        }
        proof {
            assert(settled0.take(settled0.len() as int) =~= settled0);
            assert(forall|k: int| 0 <= k < i + 1 ==> tiles0.take(i + 1)[k] == tiles0[k]);
            assert(tiles0.take(i as int) =~= tiles0.take(i + 1).drop_last());
        }

        let move_distance: i32 = if touched_placed_tile {
            best - t.pos.y - 1
        } else {
            19 - t.pos.y
        };
        proof {
            assert(move_distance == drop_dist(tiles0[i as int], settled0));
        }
        if move_distance < smallest_move_distance {
            smallest_move_distance = move_distance;
        }
        i = i + 1;
    }
    proof {
        assert(tiles0.take(tiles0.len() as int) =~= tiles0);
        if tiles0.len() > 0 {
            lemma_min_drop_is_min(tiles0, settled0);
        }
    }

    let ghost d = min_drop(tiles0, settled0);
    let mut new_tiles: Vec<Tile> = Vec::new();
    let mut k: usize = 0;
    while k < block.tiles.len()
        invariant
            k <= block.tiles@.len(),
            block.tiles@ == tiles0,
            placed_tiles@ == settled0,
            smallest_move_distance == d,
            d == min_drop(tiles0, settled0),
            tiles0.len() > 0 ==> -981 <= d <= 1999,
            forall|m: int| 0 <= m < tiles0.len() ==> -1000 <= (#[trigger] tiles0[m]).pos.y <= 1000,
            new_tiles@.len() == k,
            forall|m: int| 0 <= m < k ==> new_tiles@[m] == tile_fallen(#[trigger] tiles0[m], d),
        decreases block.tiles@.len() - k,
    {
        let t = block.tiles[k];
        new_tiles.push(Tile { color: t.color, pos: Vector2 { x: t.pos.x, y: t.pos.y + smallest_move_distance } });
        k = k + 1;
    }
    block.tiles = new_tiles;
    proof {
        assert(block.tiles@ =~= tiles0.map_values(|t: Tile| tile_fallen(t, d)));
    }

    let ghost placed1 = placed_tiles@;
    let mut k2: usize = 0;
    while k2 < block.tiles.len()
        invariant
            k2 <= block.tiles@.len(),
            placed_tiles@ == placed1 + block.tiles@.take(k2 as int),
        decreases block.tiles@.len() - k2,
    {
        let t = block.tiles[k2];
        placed_tiles.push(t);
        proof {
            assert(placed1 + block.tiles@.take(k2 + 1) =~= (placed1 + block.tiles@.take(
                k2 as int,
            )).push(t));
        }
        k2 = k2 + 1;
    }
    proof {
        assert(placed_tiles@ =~= placed1 + block.tiles@);
    }
    check_lines(placed_tiles, lines, max_combo, score);
    block.null = true;
}

} // verus!
