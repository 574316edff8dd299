use tetris::bagging::{spawn_block, Bag};
use tetris::block::Block;
use tetris::block_data::{i_block, j_block, l_block, o_block, s_block, t_block, z_block};
use tetris::board::{check_lines, move_block, move_block_horizontal, move_block_instant};
use tetris::rotation::rotate_block;
use tetris::tile::{Tile, TileColor};
use tetris::vector2::{rotate_point, Vector2};

fn positions(tiles: &[Tile]) -> Vec<(i32, i32)> {
    tiles.iter().map(|t| (t.pos.x, t.pos.y)).collect()
}

fn piece(cells: &[(i32, i32)]) -> Block {
    let tiles = cells
        .iter()
        .map(|&(x, y)| Tile::new_col(x, y, TileColor::Red))
        .collect();
    Block { tiles, placed: false, null: false }
}

fn settled(cells: &[(i32, i32)]) -> Vec<Tile> {
    cells.iter().map(|&(x, y)| Tile::new(x, y)).collect()
}

fn mask_positions(mask: [[bool; 4]; 4], off: i32) -> Vec<(i32, i32)> {
    let mut v = Vec::new();
    for (y, row) in mask.iter().enumerate() {
        for (x, &cell) in row.iter().enumerate() {
            if cell {
                v.push((off + x as i32, y as i32));
            }
        }
    }
    v
}

#[test]
fn vector2_new_holds_coordinates() {
    let v = Vector2::new(3, -7);
    assert_eq!(v.x, 3);
    assert_eq!(v.y, -7);
}

#[test]
fn rotate_point_quarter_turn() {
    let r = rotate_point(5, 5, 90, Vector2::new(6, 5));
    assert_eq!((r.x, r.y), (5, 6));
    let r2 = rotate_point(5, 5, -90, Vector2::new(6, 5));
    assert_eq!((r2.x, r2.y), (5, 6));
    let r3 = rotate_point(0, 0, 90, Vector2::new(2, 1));
    assert_eq!((r3.x, r3.y), (-1, 2));
}

#[test]
fn tile_constructors() {
    let t = Tile::new(4, 9);
    assert_eq!(t.color, TileColor::White);
    assert_eq!((t.pos.x, t.pos.y), (4, 9));
    let c = Tile::new_col(1, 2, TileColor::Blue);
    assert_eq!(c.color, TileColor::Blue);
    assert_eq!((c.pos.x, c.pos.y), (1, 2));
}

#[test]
fn masks_have_four_cells_each() {
    for mask in [
        i_block(),
        j_block(),
        l_block(),
        t_block(),
        o_block(),
        s_block(),
        z_block(),
    ] {
        let n: usize = mask
            .iter()
            .map(|row| row.iter().filter(|&&b| b).count())
            .sum();
        assert_eq!(n, 4);
    }
    assert_eq!(i_block()[1], [true, true, true, true]);
    assert_eq!(o_block()[0], [false, true, true, false]);
}

#[test]
fn block_new_offsets_columns_by_three() {
    let b = Block::new(TileColor::Green, o_block());
    assert!(!b.null);
    assert!(!b.placed);
    assert_eq!(positions(&b.tiles), vec![(4, 0), (5, 0), (4, 1), (5, 1)]);
    assert!(b.tiles.iter().all(|t| t.color == TileColor::Green));
}

#[test]
fn block_new_preview_has_no_offset() {
    let b = Block::new_preview(TileColor::Purple, o_block());
    assert_eq!(positions(&b.tiles), vec![(1, 0), (2, 0), (1, 1), (2, 1)]);
}

#[test]
fn block_empty_is_null() {
    let b = Block::empty();
    assert!(b.null);
    assert!(!b.placed);
    assert!(b.tiles.is_empty());
}

#[test]
fn bag_produces_each_shape_once() {
    let mut bag = Bag::create_bag();
    assert_eq!(bag.cur_index, 0);
    assert_eq!(bag.blocks.len(), 7);

    let expected: Vec<Vec<(i32, i32)>> = [
        i_block(),
        j_block(),
        l_block(),
        t_block(),
        o_block(),
        s_block(),
        z_block(),
    ]
    .iter()
    .map(|&m| mask_positions(m, 3))
    .collect();

    let mut seen = [false; 7];
    for _ in 0..7 {
        let b = bag.bag_next();
        let pos = positions(&b.tiles);
        let kind = expected
            .iter()
            .position(|e| *e == pos)
            .expect("drawn block matches no shape");
        assert!(!seen[kind], "shape drawn twice from one bag");
        seen[kind] = true;
    }
    assert!(seen.iter().all(|&s| s));
    assert_eq!(bag.cur_index, 7);
}

#[test]
fn bag_preview_looks_one_ahead() {
    let mut bag = Bag::create_bag();
    let peek = bag.bag_next_preview();
    assert_eq!(bag.cur_index, 0);
    let _first = bag.bag_next();
    let second = bag.bag_next();
    assert_eq!(positions(&peek.tiles), positions(&second.tiles));
}

#[test]
fn gravity_moves_piece_down_one_row() {
    let mut block = piece(&[(4, 0), (5, 0), (4, 1), (5, 1)]);
    let mut placed: Vec<Tile> = Vec::new();
    let (mut lines, mut max_combo, mut score) = (0i32, 0i32, 0i32);
    move_block(&mut block, &mut placed, &mut lines, &mut max_combo, &mut score);
    assert_eq!(positions(&block.tiles), vec![(4, 1), (5, 1), (4, 2), (5, 2)]);
    assert!(!block.null);
    assert!(placed.is_empty());
    assert_eq!((lines, max_combo, score), (0, 0, 0));
}

#[test]
fn gravity_locks_on_floor() {
    let mut block = piece(&[(4, 19)]);
    let mut placed: Vec<Tile> = Vec::new();
    let (mut lines, mut max_combo, mut score) = (0i32, 0i32, 0i32);
    move_block(&mut block, &mut placed, &mut lines, &mut max_combo, &mut score);
    assert!(block.null);
    assert_eq!(positions(&placed), vec![(4, 19)]);
    assert_eq!((lines, max_combo, score), (0, 0, 0));
}

#[test]
fn gravity_locks_on_settled_tile() {
    let mut block = piece(&[(4, 9)]);
    let mut placed = settled(&[(4, 10)]);
    let (mut lines, mut max_combo, mut score) = (0i32, 0i32, 0i32);
    move_block(&mut block, &mut placed, &mut lines, &mut max_combo, &mut score);
    assert!(block.null);
    assert_eq!(positions(&placed), vec![(4, 10), (4, 9)]);
}

#[test]
fn merge_completing_bottom_row_scores() {
    // Row 19 holds nine settled cells in columns 0..=8; the piece occupies
    // column 9 of row 19 and locks at once, completing the row.
    let mut block = piece(&[(9, 19)]);
    let mut placed = settled(&[
        (0, 19),
        (1, 19),
        (2, 19),
        (3, 19),
        (4, 19),
        (5, 19),
        (6, 19),
        (7, 19),
        (8, 19),
    ]);
    let (mut lines, mut max_combo, mut score) = (0i32, 0i32, 0i32);
    move_block(&mut block, &mut placed, &mut lines, &mut max_combo, &mut score);
    assert!(block.null);
    assert!(placed.is_empty());
    assert_eq!(lines, 1);
    assert_eq!(score, 125);
    assert_eq!(max_combo, 1);
}

#[test]
fn hard_drop_lands_o_piece_on_floor() {
    // An O piece on an empty board drops rigidly until its bottom row rests
    // on the floor, locks, and scores nothing.
    let mut block = Block::new(TileColor::Yellow, o_block());
    let mut placed: Vec<Tile> = Vec::new();
    let (mut lines, mut max_combo, mut score) = (0i32, 0i32, 0i32);
    move_block_instant(&mut block, &mut placed, &mut lines, &mut max_combo, &mut score);
    assert!(block.null);
    assert_eq!(positions(&block.tiles), vec![(4, 18), (5, 18), (4, 19), (5, 19)]);
    assert_eq!(placed.len(), 4);
    assert_eq!(positions(&placed), vec![(4, 18), (5, 18), (4, 19), (5, 19)]);
    assert_eq!((lines, max_combo, score), (0, 0, 0));
}

#[test]
fn hard_drop_is_rigid_under_obstruction() {
    // Column 4 is blocked at row 10, column 5 is free: both cells fall by the
    // smaller distance, so the piece stays in one piece.
    let mut block = piece(&[(4, 0), (5, 0)]);
    let mut placed = settled(&[(4, 10)]);
    let (mut lines, mut max_combo, mut score) = (0i32, 0i32, 0i32);
    move_block_instant(&mut block, &mut placed, &mut lines, &mut max_combo, &mut score);
    assert_eq!(positions(&block.tiles), vec![(4, 9), (5, 9)]);
    assert_eq!(positions(&placed), vec![(4, 10), (4, 9), (5, 9)]);
}

#[test]
fn shift_right_moves_all_cells() {
    let mut block = piece(&[(4, 5), (5, 5)]);
    let placed: Vec<Tile> = Vec::new();
    move_block_horizontal(&mut block, &placed, 1);
    assert_eq!(positions(&block.tiles), vec![(5, 5), (6, 5)]);
}

#[test]
fn shift_left_blocked_by_wall() {
    let mut block = piece(&[(0, 5), (1, 5)]);
    let placed: Vec<Tile> = Vec::new();
    move_block_horizontal(&mut block, &placed, -1);
    assert_eq!(positions(&block.tiles), vec![(0, 5), (1, 5)]);
}

#[test]
fn shift_is_all_or_nothing() {
    // The right cell could move right, but the left cell's destination is
    // occupied: no cell moves at all.
    let mut block = piece(&[(4, 5), (4, 6)]);
    let placed = settled(&[(5, 6)]);
    move_block_horizontal(&mut block, &placed, 1);
    assert_eq!(positions(&block.tiles), vec![(4, 5), (4, 6)]);

    let mut free = piece(&[(4, 5), (4, 6)]);
    let empty: Vec<Tile> = Vec::new();
    move_block_horizontal(&mut free, &empty, 1);
    assert_eq!(positions(&free.tiles), vec![(5, 5), (5, 6)]);
}

#[test]
fn shift_ignores_null_piece_and_zero_direction() {
    let mut block = piece(&[(4, 5)]);
    let placed: Vec<Tile> = Vec::new();
    move_block_horizontal(&mut block, &placed, 0);
    assert_eq!(positions(&block.tiles), vec![(4, 5)]);

    let mut nul = Block::empty();
    move_block_horizontal(&mut nul, &placed, 1);
    assert!(nul.tiles.is_empty());
}

#[test]
fn rotate_zero_angle_is_a_no_op() {
    let mut block = piece(&[(4, 0), (5, 0), (4, 1), (5, 1)]);
    rotate_block(&mut block, 0);
    assert_eq!(positions(&block.tiles), vec![(4, 0), (5, 0), (4, 1), (5, 1)]);
}

#[test]
fn rotate_o_piece_about_centroid() {
    // Centroid of the O piece truncates to (4, 0); each cell turns a quarter
    // turn about it and then moves one column right.
    let mut block = piece(&[(4, 0), (5, 0), (4, 1), (5, 1)]);
    rotate_block(&mut block, 90);
    assert_eq!(positions(&block.tiles), vec![(5, 0), (5, 1), (4, 0), (4, 1)]);
}

#[test]
fn rotate_near_wall_keeps_columns_in_bounds() {
    // A vertical bar on the left wall rotates to a horizontal bar that would
    // stick out at column -1; the wall correction pushes it back in.
    let mut block = piece(&[(0, 0), (0, 1), (0, 2), (0, 3)]);
    rotate_block(&mut block, -90);
    assert_eq!(positions(&block.tiles), vec![(3, 1), (2, 1), (1, 1), (0, 1)]);
    assert!(block.tiles.iter().all(|t| (0..=9).contains(&t.pos.x)));
}

#[test]
fn clearing_one_row_shifts_only_rows_above() {
    let mut placed = settled(&[
        (0, 10),
        (1, 10),
        (2, 10),
        (3, 10),
        (4, 10),
        (5, 10),
        (6, 10),
        (7, 10),
        (8, 10),
        (9, 10),
        (3, 5),
        (7, 15),
    ]);
    let (mut lines, mut max_combo, mut score) = (4i32, 3i32, 1000i32);
    check_lines(&mut placed, &mut lines, &mut max_combo, &mut score);
    assert_eq!(positions(&placed), vec![(3, 6), (7, 15)]);
    assert_eq!(lines, 5);
    assert_eq!(score, 1125);
    assert_eq!(max_combo, 3);
}

#[test]
fn clearing_two_rows_in_one_merge_is_a_combo() {
    let mut cells: Vec<(i32, i32)> = Vec::new();
    for x in 0..10 {
        cells.push((x, 18));
        cells.push((x, 19));
    }
    cells.push((0, 10));
    let mut placed = settled(&cells);
    let (mut lines, mut max_combo, mut score) = (7i32, 1i32, 500i32);
    check_lines(&mut placed, &mut lines, &mut max_combo, &mut score);
    assert_eq!(positions(&placed), vec![(0, 12)]);
    assert_eq!(lines, 9);
    assert_eq!(score, 750);
    assert_eq!(max_combo, 2);
}

#[test]
fn incomplete_row_is_not_cleared() {
    let mut placed = settled(&[
        (0, 19),
        (1, 19),
        (2, 19),
        (3, 19),
        (4, 19),
        (5, 19),
        (6, 19),
        (7, 19),
        (8, 19),
    ]);
    let (mut lines, mut max_combo, mut score) = (0i32, 0i32, 0i32);
    check_lines(&mut placed, &mut lines, &mut max_combo, &mut score);
    assert_eq!(placed.len(), 9);
    assert_eq!((lines, max_combo, score), (0, 0, 0));
}

#[test]
fn spawn_draws_current_and_preview_from_bag() {
    let mut bag = Bag::create_bag();
    let first = positions(&bag.blocks[0].tiles);
    let second = positions(&bag.blocks[1].tiles);
    let mut block = Block::empty();
    let mut next_block = Block::empty();
    spawn_block(&mut block, &mut bag, &mut next_block);
    assert_eq!(bag.cur_index, 1);
    assert!(!block.null);
    assert_eq!(positions(&block.tiles), first);
    assert_eq!(positions(&next_block.tiles), second);
}

#[test]
fn spawn_renews_an_exhausted_bag() {
    let mut bag = Bag::create_bag();
    bag.cur_index = 6;
    let mut block = Block::empty();
    let mut next_block = Block::empty();
    spawn_block(&mut block, &mut bag, &mut next_block);
    assert_eq!(bag.cur_index, 1);
    assert_eq!(bag.blocks.len(), 7);
    assert!(!block.null);
    assert_eq!(block.tiles.len(), 4);
    assert_eq!(next_block.tiles.len(), 4);
}
