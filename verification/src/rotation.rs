//! Rotation of the falling piece about its centroid, with wall correction.

use vstd::prelude::*;
use crate::block::Block;
use crate::board::tile_shifted;
use crate::tile::Tile;
use crate::vector2::{rotate_point, rotated_x, rotated_y, Vector2};

verus! {

pub open spec fn sum_x(tiles: Seq<Tile>) -> int
    decreases tiles.len(),
{
    if tiles.len() == 0 {
        0
    } else {
        sum_x(tiles.drop_last()) + tiles.last().pos.x
    }
}

pub open spec fn sum_y(tiles: Seq<Tile>) -> int
    decreases tiles.len(),
{
    if tiles.len() == 0 {
        0
    } else {
        sum_y(tiles.drop_last()) + tiles.last().pos.y
    }
}

/// Integer division rounding toward zero, as machine division does.
pub open spec fn trunc_div(a: int, b: int) -> int {
    if a >= 0 {
        a / b
    } else {
        -((-a) / b)
    }
}

/// The centroid column: the truncating average of the cells' columns.
pub open spec fn center_x(tiles: Seq<Tile>) -> int {
    trunc_div(sum_x(tiles), tiles.len() as int)
}

/// The centroid row: the truncating average of the cells' rows.
pub open spec fn center_y(tiles: Seq<Tile>) -> int {
    trunc_div(sum_y(tiles), tiles.len() as int)
}

/// One cell after rotation about `(cx, cy)` and the fixed one-column
/// correction that follows every rotation.
pub open spec fn rot_tile(cx: int, cy: int, t: Tile) -> Tile {
    Tile {
        color: t.color,
        pos: Vector2 {
            x: (rotated_x(cx, cy, t.pos) + 1) as i32,
            y: rotated_y(cx, cy, t.pos) as i32,
        },
    }
}

/// The whole piece after rotation about its centroid, before wall correction.
pub open spec fn rotated_tiles(tiles: Seq<Tile>) -> Seq<Tile> {
    tiles.map_values(|t: Tile| rot_tile(center_x(tiles), center_y(tiles), t))
}

/// The leftmost column of the piece (0 for an empty piece).
pub open spec fn min_col(tiles: Seq<Tile>) -> int
    decreases tiles.len(),
{
    if tiles.len() == 0 {
        0
    } else if tiles.len() == 1 {
        tiles[0].pos.x as int
    } else {
        let rest = min_col(tiles.drop_last());
        if tiles.last().pos.x < rest {
            tiles.last().pos.x as int
        } else {
            rest
        }
    }
}

/// The rightmost column of the piece (0 for an empty piece).
pub open spec fn max_col(tiles: Seq<Tile>) -> int
    decreases tiles.len(),
{
    if tiles.len() == 0 {
        0
    } else if tiles.len() == 1 {
        tiles[0].pos.x as int
    } else {
        let rest = max_col(tiles.drop_last());
        if tiles.last().pos.x > rest {
            tiles.last().pos.x as int
        } else {
            rest
        }
    }
}

/// The total column shift the wall-correction loop applies: just enough to
/// bring a piece hanging out on the left back to column 0, or one hanging out
/// on the right back to column 9, and nothing for a piece already in bounds.
pub open spec fn wall_shift(tiles: Seq<Tile>) -> int {
    if min_col(tiles) < 0 {
        -min_col(tiles)
    } else if max_col(tiles) > 9 {
        9 - max_col(tiles)
    } else {
        0
    }
}

/// How far out of bounds the piece still is; the wall loop drives this to 0.
pub open spec fn wall_excess(tiles: Seq<Tile>) -> int {
    let s = wall_shift(tiles);
    if s < 0 {
        -s
    } else {
        s
    }
}

/// The piece after wall correction.
pub open spec fn wall_corrected(tiles: Seq<Tile>) -> Seq<Tile> {
    tiles.map_values(|t: Tile| tile_shifted(t, wall_shift(tiles)))
}

/// Every cell's column lies between the piece's leftmost and rightmost
/// columns, and both extremes are attained.
pub proof fn lemma_col_attained(tiles: Seq<Tile>)
    requires
        tiles.len() > 0,
    ensures
        forall|i: int| 0 <= i < tiles.len() ==> min_col(tiles) <= (#[trigger] tiles[i]).pos.x
            <= max_col(tiles),
        exists|i: int| 0 <= i < tiles.len() && (#[trigger] tiles[i]).pos.x == min_col(tiles),
        exists|i: int| 0 <= i < tiles.len() && (#[trigger] tiles[i]).pos.x == max_col(tiles),
    decreases tiles.len(),
{
    if tiles.len() > 1 {
        lemma_col_attained(tiles.drop_last());
        assert(forall|i: int| 0 <= i < tiles.len() - 1 ==> tiles.drop_last()[i] == #[trigger] tiles[i]);
        assert(tiles[tiles.len() - 1] == tiles.last());
        let p = choose|i: int|
            0 <= i < tiles.drop_last().len() && (#[trigger] tiles.drop_last()[i]).pos.x == min_col(
                tiles.drop_last(),
            );
        let q = choose|i: int|
            0 <= i < tiles.drop_last().len() && (#[trigger] tiles.drop_last()[i]).pos.x == max_col(
                tiles.drop_last(),
            );
        assert(tiles[p].pos.x == min_col(tiles.drop_last()));
        assert(tiles[q].pos.x == max_col(tiles.drop_last()));
    } else {
        assert(tiles[0] == tiles.last());
    }
}

/// Shifting every cell's column by `s` shifts the extremes by `s`.
pub proof fn lemma_col_offset(a: Seq<Tile>, b: Seq<Tile>, s: int)
    requires
        a.len() == b.len(),
        a.len() > 0,
        forall|m: int| 0 <= m < a.len() ==> (#[trigger] a[m]).pos.x == b[m].pos.x + s,
    ensures
        min_col(a) == min_col(b) + s,
        max_col(a) == max_col(b) + s,
    decreases a.len(),
{
    if a.len() > 1 {
        assert(forall|m: int| 0 <= m < a.len() - 1 ==> a.drop_last()[m] == #[trigger] a[m]);
        assert(forall|m: int| 0 <= m < b.len() - 1 ==> b.drop_last()[m] == #[trigger] b[m]);
        assert(forall|m: int| 0 <= m < a.drop_last().len() ==> (#[trigger] a.drop_last()[m]).pos.x
            == b.drop_last()[m].pos.x + s);
        lemma_col_offset(a.drop_last(), b.drop_last(), s);
        assert(a[a.len() - 1] == a.last() && b[b.len() - 1] == b.last());
    } else {
        assert(a[0].pos.x == b[0].pos.x + s);
    }
}

/// Machine integer division truncating toward zero.
fn trunc_div_i32(a: i32, b: i32) -> (q: i32)
    requires
        1 <= b <= 16,
        -100_000 <= a <= 100_000,
    ensures
        q == trunc_div(a as int, b as int),
        -100_000 <= q <= 100_000,
{
    if a >= 0 {
        let q = ((a as u32) / (b as u32)) as i32;
        proof {
            assert((a as u32) / (b as u32) <= a as u32) by (nonlinear_arith)
                requires b as u32 >= 1;
        }
        q
    } else {
        let neg = -a;
        let q = ((neg as u32) / (b as u32)) as i32;
        proof {
            assert((neg as u32) / (b as u32) <= neg as u32) by (nonlinear_arith)
                requires b as u32 >= 1;
        }
        -q
    }
}

/// Rotates the piece a quarter turn about the truncating average of its
/// cells (always the same turning direction, whatever sign `rotate_angle`
/// has), applies the fixed one-column correction, then shifts the whole
/// piece column by column until every cell's column is back within 0..=9.
/// A request of angle 0, or an empty piece, changes nothing.
#[verifier::rlimit(100)]
pub fn rotate_block(block: &mut Block, rotate_angle: i32)
    requires
        old(block).tiles@.len() <= 16,
        forall|i: int| 0 <= i < old(block).tiles@.len()
            ==> -1000 <= (#[trigger] old(block).tiles@[i]).pos.x <= 1000
                && -1000 <= old(block).tiles@[i].pos.y <= 1000,
        forall|i: int, j: int|
            0 <= i < old(block).tiles@.len() && 0 <= j < old(block).tiles@.len()
                ==> (#[trigger] old(block).tiles@[i]).pos.y - (#[trigger] old(block).tiles@[j]).pos.y
                    <= 9,
    ensures
        final(block).null == old(block).null,
        final(block).placed == old(block).placed,
        rotate_angle == 0 || old(block).tiles@.len() == 0
            ==> final(block).tiles@ == old(block).tiles@,
        rotate_angle != 0 && old(block).tiles@.len() > 0 ==> {
            &&& final(block).tiles@ == wall_corrected(rotated_tiles(old(block).tiles@))
            &&& forall|i: int| 0 <= i < final(block).tiles@.len()
                ==> 0 <= (#[trigger] final(block).tiles@[i]).pos.x <= 9
        },
{
    if rotate_angle == 0 {
        return ;
    }
    if block.tiles.len() == 0 {
        return ;
    }

    let ghost tiles0 = block.tiles@;
    let mut x_sum: i32 = 0;
    let mut y_sum: i32 = 0;
    let mut i: usize = 0;
    while i < block.tiles.len()
        invariant
            i <= block.tiles@.len(),
            block.tiles@ == tiles0,
            tiles0.len() <= 16,
            forall|m: int| 0 <= m < tiles0.len() ==> -1000 <= (#[trigger] tiles0[m]).pos.x <= 1000
                && -1000 <= tiles0[m].pos.y <= 1000,
            x_sum == sum_x(tiles0.take(i as int)),
            y_sum == sum_y(tiles0.take(i as int)),
            -1000 * (i as int) <= x_sum <= 1000 * (i as int),
            -1000 * (i as int) <= y_sum <= 1000 * (i as int),
        decreases block.tiles@.len() - i,
    {
        let t = block.tiles[i];
        proof {
            assert(forall|k: int| 0 <= k < i + 1 ==> tiles0.take(i + 1)[k] == tiles0[k]);
            assert(tiles0.take(i as int) =~= tiles0.take(i + 1).drop_last());
        }
        x_sum = x_sum + t.pos.x;
        y_sum = y_sum + t.pos.y;
        i = i + 1;
    }
    proof {
        assert(tiles0.take(tiles0.len() as int) =~= tiles0);
    }

    let center = Vector2::new(
        trunc_div_i32(x_sum, block.tiles.len() as i32),
        trunc_div_i32(y_sum, block.tiles.len() as i32),
    );
    let ghost cx0 = center_x(tiles0);
    let ghost cy0 = center_y(tiles0);
    proof {
        assert(center.x == cx0 && center.y == cy0);
    }

    let mut new_tiles: Vec<Tile> = Vec::new();
    let mut k: usize = 0;
    while k < block.tiles.len()
        invariant
            k <= block.tiles@.len(),
            block.tiles@ == tiles0,
            forall|m: int| 0 <= m < tiles0.len() ==> -1000 <= (#[trigger] tiles0[m]).pos.x <= 1000
                && -1000 <= tiles0[m].pos.y <= 1000,
            center.x == cx0 && center.y == cy0,
            -100_000 <= cx0 <= 100_000,
            -100_000 <= cy0 <= 100_000,
            new_tiles@.len() == k,
            forall|m: int| 0 <= m < k ==> new_tiles@[m] == rot_tile(cx0, cy0, #[trigger] tiles0[m]),
        decreases block.tiles@.len() - k,
    {
        let t = block.tiles[k];
        let p = rotate_point(center.x, center.y, rotate_angle, t.pos);
        new_tiles.push(Tile { color: t.color, pos: Vector2 { x: p.x + 1, y: p.y } });
        k = k + 1;
    }
    block.tiles = new_tiles;
    let ghost rot = rotated_tiles(tiles0);
    proof {
        assert(block.tiles@ =~= rot);
    }

    proof {
        lemma_col_attained(rot);
        assert(forall|m: int| 0 <= m < rot.len() ==> #[trigger] rot[m] == rot_tile(
            cx0,
            cy0,
            tiles0[m],
        ));
        assert(forall|m: int| 0 <= m < rot.len() ==> -300_000 <= (#[trigger] rot[m]).pos.x
            <= 300_000);
        let p = choose|i: int| 0 <= i < rot.len() && (#[trigger] rot[i]).pos.x == min_col(rot);
        let q = choose|i: int| 0 <= i < rot.len() && (#[trigger] rot[i]).pos.x == max_col(rot);
        assert(rot[p].pos.x == cx0 - (tiles0[p].pos.y - cy0) + 1);
        assert(rot[q].pos.x == cx0 - (tiles0[q].pos.y - cy0) + 1);
        assert(max_col(rot) - min_col(rot) <= 9);
        assert(-300_000 <= min_col(rot) && max_col(rot) <= 300_000);
    }

    let ghost null0 = block.null;
    let ghost placed0 = block.placed;
    let ghost mut g: int = 0;
    loop
        invariant
            block.null == null0,
            block.placed == placed0,
            block.tiles@.len() == rot.len(),
            rot.len() > 0,
            forall|m: int| 0 <= m < rot.len() ==> -300_000 <= (#[trigger] rot[m]).pos.x <= 300_000,
            max_col(rot) - min_col(rot) <= 9,
            forall|m: int| 0 <= m < rot.len() ==> (#[trigger] block.tiles@[m]).color == rot[m].color
                && block.tiles@[m].pos.y == rot[m].pos.y && block.tiles@[m].pos.x == rot[m].pos.x
                + g,
            g + wall_shift(block.tiles@) == wall_shift(rot),
            -300_000 <= min_col(block.tiles@),
            max_col(block.tiles@) <= 300_000,
        ensures
            block.null == null0,
            block.placed == placed0,
            wall_shift(block.tiles@) == 0,
            g == wall_shift(rot),
            forall|m: int| 0 <= m < rot.len() ==> (#[trigger] block.tiles@[m]).color == rot[m].color
                && block.tiles@[m].pos.y == rot[m].pos.y && block.tiles@[m].pos.x == rot[m].pos.x
                + g,
            block.tiles@.len() == rot.len(),
        decreases wall_excess(block.tiles@),
    {
        let ghost cur = block.tiles@;
        proof {
            lemma_col_attained(cur);
            lemma_col_offset(cur, rot, g);
        }
        let mut cur_min: i32 = block.tiles[0].pos.x;
        let mut cur_max: i32 = cur_min;
        let mut s: usize = 1;
        while s < block.tiles.len()
            invariant
                1 <= s <= cur.len(),
                block.tiles@ == cur,
                cur.len() > 0,
                cur_min == min_col(cur.take(s as int)),
                cur_max == max_col(cur.take(s as int)),
            decreases cur.len() - s,
        {
            let t = block.tiles[s];
            proof {
                assert(forall|k: int| 0 <= k < s + 1 ==> cur.take(s + 1)[k] == cur[k]);
                assert(cur.take(s as int) =~= cur.take(s + 1).drop_last());
                assert(cur.take(s + 1).last() == cur[s as int]);
            }
            if t.pos.x < cur_min {
                cur_min = t.pos.x;
            }
            if t.pos.x > cur_max {
                cur_max = t.pos.x;
            }
            s = s + 1;
        }
        proof {
            assert(cur.take(cur.len() as int) =~= cur);
        }

        if cur_min < 0 {
            let mut shifted: Vec<Tile> = Vec::new();
            let mut m: usize = 0;
            while m < block.tiles.len()
                invariant
                    m <= cur.len(),
                    block.tiles@ == cur,
                    forall|k: int| 0 <= k < cur.len() ==> min_col(cur) <= (#[trigger] cur[k]).pos.x
                        <= max_col(cur),
                    -300_000 <= min_col(cur),
                    max_col(cur) <= 300_000,
                    shifted@.len() == m,
                    forall|k: int| 0 <= k < m ==> (#[trigger] shifted@[k]).color == cur[k].color
                        && shifted@[k].pos.y == cur[k].pos.y && shifted@[k].pos.x == cur[k].pos.x
                        + 1,
                decreases cur.len() - m,
            {
                let t = block.tiles[m];
                shifted.push(Tile { color: t.color, pos: Vector2 { x: t.pos.x + 1, y: t.pos.y } });
                m = m + 1;
            }
            block.tiles = shifted;
            proof {
                lemma_col_offset(block.tiles@, cur, 1);
                assert(min_col(cur) < 0);
                assert(max_col(cur) - min_col(cur) <= 9);
                assert(max_col(cur) <= 8);
                assert(min_col(block.tiles@) == min_col(cur) + 1);
                assert(max_col(block.tiles@) == max_col(cur) + 1);
                g = g + 1;
            }
        } else if cur_max > 9 {
            let mut shifted: Vec<Tile> = Vec::new();
            let mut m: usize = 0;
            while m < block.tiles.len()
                invariant
                    m <= cur.len(),
                    block.tiles@ == cur,
                    forall|k: int| 0 <= k < cur.len() ==> min_col(cur) <= (#[trigger] cur[k]).pos.x
                        <= max_col(cur),
                    -300_000 <= min_col(cur),
                    max_col(cur) <= 300_000,
                    shifted@.len() == m,
                    forall|k: int| 0 <= k < m ==> (#[trigger] shifted@[k]).color == cur[k].color
                        && shifted@[k].pos.y == cur[k].pos.y && shifted@[k].pos.x == cur[k].pos.x
                        - 1,
                decreases cur.len() - m,
            {
                let t = block.tiles[m];
                shifted.push(Tile { color: t.color, pos: Vector2 { x: t.pos.x - 1, y: t.pos.y } });
                m = m + 1;
            }
            block.tiles = shifted;
            proof {
                lemma_col_offset(block.tiles@, cur, -1);
                assert(min_col(cur) >= 0 && max_col(cur) > 9);
                assert(max_col(cur) - min_col(cur) <= 9);
                assert(min_col(cur) >= 1);
                assert(min_col(block.tiles@) == min_col(cur) - 1);
                assert(max_col(block.tiles@) == max_col(cur) - 1);
                g = g - 1;
            }
        } else {
            break ;
        }
    }

    proof {
        lemma_col_attained(block.tiles@);
        assert(forall|m: int| 0 <= m < rot.len() ==> block.tiles@[m] == tile_shifted(
            #[trigger] rot[m],
            wall_shift(rot),
        ));
        assert(block.tiles@ =~= wall_corrected(rot));
    }
}

} // verus!
