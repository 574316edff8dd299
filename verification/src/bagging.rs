//! The seven-piece bag randomizer: every shape appears once per bag.

use vstd::prelude::*;
use rand::Rng;
use crate::block::{mask_cells, Block};
use crate::block_data::{i_block, j_block, l_block, mask_of, o_block, s_block, t_block, z_block};
use crate::tile::TileColor;

verus! {

/// How many entries of `s` equal the shape number `k`.
pub open spec fn count_shape(s: Seq<i32>, k: i32) -> nat
    decreases s.len(),
{
    if s.len() == 0 {
        0
    } else {
        count_shape(s.drop_last(), k) + if s.last() == k {
            1nat
        } else {
            0nat
        }
    }
}

pub proof fn lemma_count_push(s: Seq<i32>, v: i32)
    ensures
        forall|k: i32| #[trigger] count_shape(s.push(v), k) == count_shape(s, k) + if v == k {
            1nat
        } else {
            0nat
        },
{
    assert(s.push(v).drop_last() =~= s);
    assert(s.push(v).last() == v);
}

pub proof fn lemma_count_concat(a: Seq<i32>, b: Seq<i32>)
    ensures
        forall|k: i32| #[trigger] count_shape(a + b, k) == count_shape(a, k) + count_shape(b, k),
    decreases b.len(),
{
    if b.len() == 0 {
        assert(a + b =~= a);
    } else {
        assert((a + b).drop_last() =~= a + b.drop_last());
        assert((a + b).last() == b.last());
        lemma_count_concat(a, b.drop_last());
        assert forall|k: i32| #[trigger] count_shape(a + b, k) == count_shape(a, k) + count_shape(
            b,
            k,
        ) by {
            assert(count_shape(a + b.drop_last(), k) == count_shape(a, k) + count_shape(
                b.drop_last(),
                k,
            ));
            assert(count_shape(b, k) == count_shape(b.drop_last(), k) + if b.last() == k {
                1nat
            } else {
                0nat
            });
            assert(count_shape(a + b, k) == count_shape((a + b).drop_last(), k) + if (a
                + b).last() == k {
                1nat
            } else {
                0nat
            });
        }
    }
}

pub proof fn lemma_count_remove(s: Seq<i32>, i: int)
    requires
        0 <= i < s.len(),
    ensures
        forall|k: i32| #[trigger] count_shape(s, k) == count_shape(s.remove(i), k) + if s[i] == k {
            1nat
        } else {
            0nat
        },
{
    let a = s.subrange(0, i);
    let m = s.subrange(i, i + 1);
    let b = s.subrange(i + 1, s.len() as int);
    assert(s =~= (a + m) + b);
    assert(s.remove(i) =~= a + b);
    lemma_count_concat(a, b);
    lemma_count_concat(a + m, b);
    lemma_count_concat(a, m);
    assert(m.drop_last() =~= Seq::<i32>::empty());
    assert(m.last() == s[i]);
    assert forall|k: i32| #[trigger] count_shape(s, k) == count_shape(s.remove(i), k) + if s[i]
        == k {
        1nat
    } else {
        0nat
    } by {
        assert(count_shape((a + m) + b, k) == count_shape(a + m, k) + count_shape(b, k));
        assert(count_shape(a + m, k) == count_shape(a, k) + count_shape(m, k));
        assert(count_shape(a + b, k) == count_shape(a, k) + count_shape(b, k));
        assert(count_shape(Seq::<i32>::empty(), k) == 0);
        assert(count_shape(m, k) == if s[i] == k {
            1nat
        } else {
            0nat
        });
    }
}

/// True when `perm` is an order of the seven shape numbers 1..=7 in which
/// each occurs exactly once.
pub open spec fn is_shape_perm(perm: Seq<i32>) -> bool {
    perm.len() == 7 && forall|k: i32| 1 <= k <= 7 ==> count_shape(perm, k) == 1
}

/// True when `blocks` spells out `perm` in the colors `cols`: the block at
/// each slot is the shape the permutation names there, spawned with that
/// slot's color and not yet placed or null.
pub open spec fn blocks_match(blocks: Seq<Block>, perm: Seq<i32>, cols: Seq<TileColor>) -> bool {
    &&& blocks.len() == perm.len()
    &&& cols.len() == perm.len()
    &&& forall|i: int|
        0 <= i < blocks.len() ==> 1 <= perm[i] <= 7 && (#[trigger] blocks[i]).tiles@ == mask_cells(
            mask_of(perm[i] as int),
            cols[i],
            3,
        ) && !blocks[i].null && !blocks[i].placed
}

/// The bag invariant: seven spawned blocks, one of each of the seven shapes,
/// in some order, each with some display color.
pub open spec fn bag_blocks_ok(blocks: Seq<Block>) -> bool {
    exists|perm: Seq<i32>, cols: Seq<TileColor>|
        is_shape_perm(perm) && #[trigger] blocks_match(blocks, perm, cols)
}

/// A shuffled run of all seven shapes, and a cursor over how many have been
/// consumed.
pub struct Bag {
    pub blocks: Vec<Block>,
    pub cur_index: i32,
}

/// Relies on rand::thread_rng and rand::Rng::gen_range: a draw from the
/// uniform distribution over `0..n` lies below `n`, and the range is not
/// empty since `n > 0`. Nothing more is assumed of the drawn value.
#[verifier::external_body]
fn random_below(n: usize) -> (r: usize)
    requires
        n > 0,
    ensures
        r < n,
{
    rand::thread_rng().gen_range(0..n)
}

fn shape_numbers() -> (v: Vec<i32>)
    ensures
        v@.len() == 7,
        forall|i: int| 0 <= i < v@.len() ==> 1 <= #[trigger] v@[i] <= 7,
        forall|k: i32| 1 <= k <= 7 ==> count_shape(v@, k) == 1,
{
    let mut v: Vec<i32> = Vec::new();
    let mut n: i32 = 1;
    while n <= 7
        invariant
            1 <= n <= 8,
            v@.len() == n - 1,
            forall|i: int| 0 <= i < v@.len() ==> 1 <= #[trigger] v@[i] < n,
            forall|k: i32| 1 <= k < n ==> count_shape(v@, k) == 1,
            forall|k: i32| n <= k <= 7 ==> count_shape(v@, k) == 0,
        decreases 8 - n,
    {
        proof {
            lemma_count_push(v@, n);
        }
        v.push(n);
        n = n + 1;
    }
    v
}

fn duplicate_block(b: &Block) -> (r: Block)
    ensures
        r.tiles@ == b.tiles@,
        r.placed == b.placed,
        r.null == b.null,
{
    let mut tiles: Vec<crate::tile::Tile> = Vec::new();
    let mut i: usize = 0;
    while i < b.tiles.len()
        invariant
            i <= b.tiles@.len(),
            tiles@ == b.tiles@.take(i as int),
        decreases b.tiles@.len() - i,
    {
        tiles.push(b.tiles[i]);
        proof {
            assert(b.tiles@.take(i + 1) =~= b.tiles@.take(i as int).push(b.tiles@[i as int]));
        }
        i = i + 1;
    }
    proof {
        assert(b.tiles@.take(b.tiles@.len() as int) =~= b.tiles@);
    }
    Block { tiles, placed: b.placed, null: b.null }
}

impl Bag {
    /// Builds a fresh bag: draws the seven shapes in a uniformly random order
    /// without replacement, gives each an independently random color from the
    /// six-color palette, spawns each as a block, and resets the cursor.
    pub fn create_bag() -> (bag: Bag)
        ensures
            bag.cur_index == 0,
            bag.blocks@.len() == 7,
            bag_blocks_ok(bag.blocks@),
    {
        let mut index_arr: Vec<i32> = shape_numbers();
        let ghost mut picked: Seq<i32> = Seq::empty();
        let ghost mut cols: Seq<TileColor> = Seq::empty();

        let mut blocks: Vec<Block> = Vec::new();
        let mut r: usize = 0;
        while r < 7
            invariant
                r <= 7,
                blocks@.len() == r,
                picked.len() == r,
                cols.len() == r,
                forall|i: int| 0 <= i < picked.len() ==> 1 <= #[trigger] picked[i] <= 7,
                index_arr@.len() == 7 - r,
                forall|i: int| 0 <= i < index_arr@.len() ==> 1 <= #[trigger] index_arr@[i] <= 7,
                forall|k: i32| 1 <= k <= 7 ==> count_shape(picked, k) + count_shape(index_arr@, k)
                    == 1,
                blocks_match(blocks@, picked, cols),
            decreases 7 - r,
        {
            let color_index = random_below(6) + 1;
            let r_index = random_below(index_arr.len());

            let block_index = index_arr[r_index];
            let block_type: [[bool; 4]; 4] = if block_index == 1 {
                i_block()
            } else if block_index == 2 {
                j_block()
            } else if block_index == 3 {
                l_block()
            } else if block_index == 4 {
                t_block()
            } else if block_index == 5 {
                o_block()
            } else if block_index == 6 {
                s_block()
            } else {
                z_block()
            };

            let color = if color_index == 1 {
                TileColor::Yellow
            } else if color_index == 2 {
                TileColor::Blue
            } else if color_index == 3 {
                TileColor::Red
            } else if color_index == 4 {
                TileColor::Green
            } else if color_index == 5 {
                TileColor::Purple
            } else {
                TileColor::Gray
            };

            proof {
                assert(block_type.deep_view() == mask_of(block_index as int));
            }
            let new_block = Block::new(color, block_type);
            let ghost nb = new_block;
            let ghost blocks_entry = blocks@;
            proof {
                assert(nb.tiles@ == mask_cells(mask_of(block_index as int), color, 3));
            }
            blocks.push(new_block);

            let ghost old_index_view = index_arr@;
            let ghost old_picked = picked;
            let ghost old_cols = cols;
            index_arr.remove(r_index);
            proof {
                picked = picked.push(block_index);
                cols = cols.push(color);
                lemma_count_push(old_picked, block_index);
                lemma_count_remove(old_index_view, r_index as int);
                assert(index_arr@ == old_index_view.remove(r_index as int));
                assert(forall|i: int| 0 <= i < index_arr@.len() ==> 1 <= #[trigger] index_arr@[i]
                    <= 7) by {
                    assert(forall|i: int| 0 <= i < index_arr@.len() ==> index_arr@[i]
                        == if i < r_index as int {
                        old_index_view[i]
                    } else {
                        old_index_view[i + 1]
                    });
                }
                assert(blocks@.len() == picked.len());
                assert(cols.len() == picked.len());
                assert(forall|i: int| 0 <= i < picked.len() ==> 1 <= #[trigger] picked[i] <= 7);
                assert forall|i: int|
                    0 <= i < blocks@.len() implies 1 <= picked[i] <= 7 && (#[trigger] blocks@[i]).tiles@
                    == mask_cells(mask_of(picked[i] as int), cols[i], 3) && !blocks@[i].null
                    && !blocks@[i].placed by {
                    if i < blocks_entry.len() {
                        assert(blocks@[i] == blocks_entry[i]);
                        assert(picked[i] == old_picked[i]);
                        assert(cols[i] == old_cols[i]);
                    } else {
                        assert(blocks@[i] == nb);
                        assert(picked[i] == block_index);
                        assert(cols[i] == color);
                    }
                }
                assert(blocks_match(blocks@, picked, cols));
            }
            r = r + 1;
        }

        proof {
            assert(forall|k: i32| 1 <= k <= 7 ==> count_shape(picked, k) == 1) by {
                assert(index_arr@ =~= Seq::<i32>::empty());
                assert(forall|k: i32| 1 <= k <= 7 ==> count_shape(index_arr@, k) == 0);
            }
            assert(is_shape_perm(picked) && blocks_match(blocks@, picked, cols));
        }
        Bag { blocks, cur_index: 0 }
    }

    /// Hands out the block at the cursor and advances the cursor.
    pub fn bag_next(&mut self) -> (b: Block)
        requires
            0 <= old(self).cur_index,
            old(self).cur_index < old(self).blocks@.len(),
            old(self).blocks@.len() <= 7,
        ensures
            final(self).cur_index == old(self).cur_index + 1,
            final(self).blocks@ == old(self).blocks@,
            b.tiles@ == old(self).blocks@[old(self).cur_index as int].tiles@,
            b.null == old(self).blocks@[old(self).cur_index as int].null,
            b.placed == old(self).blocks@[old(self).cur_index as int].placed,
    {
        self.cur_index = self.cur_index + 1;
        duplicate_block(&self.blocks[(self.cur_index - 1) as usize])
    }

    /// Peeks one block past the cursor, for the preview, without consuming.
    pub fn bag_next_preview(&mut self) -> (b: Block)
        requires
            0 <= old(self).cur_index,
            old(self).cur_index + 1 < old(self).blocks@.len(),
            old(self).blocks@.len() <= 7,
        ensures
            final(self).cur_index == old(self).cur_index,
            final(self).blocks@ == old(self).blocks@,
            b.tiles@ == old(self).blocks@[old(self).cur_index + 1].tiles@,
            b.null == old(self).blocks@[old(self).cur_index + 1].null,
            b.placed == old(self).blocks@[old(self).cur_index + 1].placed,
    {
        duplicate_block(&self.blocks[(self.cur_index + 1) as usize])
    }
}

proof fn lemma_count_ge_one(s: Seq<i32>, i: int, k: i32)
    requires
        0 <= i < s.len(),
        s[i] == k,
    ensures
        count_shape(s, k) >= 1,
    decreases s.len(),
{
    if i < s.len() - 1 {
        assert(s.drop_last()[i] == s[i]);
        lemma_count_ge_one(s.drop_last(), i, k);
    }
}

proof fn lemma_count_ge_two(s: Seq<i32>, i: int, j: int, k: i32)
    requires
        0 <= i < j < s.len(),
        s[i] == k,
        s[j] == k,
    ensures
        count_shape(s, k) >= 2,
    decreases s.len(),
{
    if j == s.len() - 1 {
        assert(s.drop_last()[i] == s[i]);
        lemma_count_ge_one(s.drop_last(), i, k);
    } else {
        assert(s.drop_last()[i] == s[i] && s.drop_last()[j] == s[j]);
        lemma_count_ge_two(s.drop_last(), i, j, k);
    }
}

proof fn lemma_count_has_index(s: Seq<i32>, k: i32)
    requires
        count_shape(s, k) >= 1,
    ensures
        exists|i: int| 0 <= i < s.len() && #[trigger] s[i] == k,
    decreases s.len(),
{
    if s.last() == k {
        assert(s[s.len() - 1] == k);
    } else {
        lemma_count_has_index(s.drop_last(), k);
        let i = choose|i: int| 0 <= i < s.drop_last().len() && s.drop_last()[i] == k;
        assert(s[i] == k);
    }
}

/// True when shape number `k` is named somewhere in the shape order `perm`.
pub open spec fn shape_found(perm: Seq<i32>, k: i32) -> bool {
    exists|i: int| 0 <= i < perm.len() && #[trigger] perm[i] == k
}

/// Law of the bag cycle: the seven draws from one fresh bag hand out each of
/// the seven shapes exactly once, in some order. A shape order in which each
/// shape number counts one occurrence names no slot twice, and every shape
/// number is found in some slot.
pub proof fn lemma_shape_perm_distinct_and_complete(perm: Seq<i32>)
    requires
        is_shape_perm(perm),
        forall|i: int| 0 <= i < perm.len() ==> 1 <= #[trigger] perm[i] <= 7,
    ensures
        forall|i: int, j: int|
            0 <= i < perm.len() && 0 <= j < perm.len() && i != j ==> #[trigger] perm[i]
                != #[trigger] perm[j],
        forall|k: i32| 1 <= k <= 7 ==> #[trigger] shape_found(perm, k),
{
    assert forall|i: int, j: int|
        0 <= i < perm.len() && 0 <= j < perm.len() && i != j implies #[trigger] perm[i]
        != #[trigger] perm[j] by {
        if perm[i] == perm[j] && 1 <= perm[i] <= 7 {
            if i < j {
                lemma_count_ge_two(perm, i, j, perm[i]);
            } else {
                lemma_count_ge_two(perm, j, i, perm[i]);
            }
        }
    }
    assert forall|k: i32| 1 <= k <= 7 implies #[trigger] shape_found(perm, k) by {
        lemma_count_has_index(perm, k);
    }
}

/// True when `a` holds the same cells and flags as `b`: a fresh copy of it.
pub open spec fn block_like(a: Block, b: Block) -> bool {
    a.tiles@ == b.tiles@ && a.null == b.null && a.placed == b.placed
}

/// Replaces the finished piece: draws the next block from the bag and the
/// one-ahead block for the preview. When fewer than two draws remain the bag
/// is renewed first, so the cursor never runs off the end.
pub fn spawn_block(block: &mut Block, bag: &mut Bag, next_block: &mut Block)
    requires
        0 <= old(bag).cur_index,
        old(bag).blocks@.len() == 7,
    ensures
        old(bag).cur_index < 6 ==> {
            &&& final(bag).blocks@ == old(bag).blocks@
            &&& final(bag).cur_index == old(bag).cur_index + 1
            &&& block_like(*final(block), old(bag).blocks@[old(bag).cur_index as int])
            &&& block_like(*final(next_block), old(bag).blocks@[old(bag).cur_index + 1])
        },
        old(bag).cur_index >= 6 ==> {
            &&& final(bag).blocks@.len() == 7
            &&& bag_blocks_ok(final(bag).blocks@)
            &&& final(bag).cur_index == 1
            &&& block_like(*final(block), final(bag).blocks@[0])
            &&& block_like(*final(next_block), final(bag).blocks@[1])
        },
{
    if bag.cur_index < 6 {
        *next_block = bag.bag_next_preview();
        *block = bag.bag_next();
    } else {
        *bag = Bag::create_bag();
        *next_block = bag.bag_next_preview();
        *block = bag.bag_next();
    }
}

} // verus!
