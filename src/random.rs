//! Random tiles: which rank comes next and where it lands.
use vstd::prelude::*;
use rand::Rng;
use crate::board::{cell, count_empty, count_empty_spec, empty_below, insert_tile_at, placed_at};
use crate::tables::{Tables, move_spec};

verus! {

/// Relies on rand's `thread_rng().gen_range(0..n)`: a number below `n`
/// (it panics on an empty range, which `requires` rules out).
#[verifier::external_body]
fn unif_random(n: u32) -> (r: u32)
    requires
        n > 0,
    ensures
        r < n,
{
    rand::thread_rng().gen_range(0..n)
}

/// The rank of a new tile for a draw `x` out of ten: rank 1 (a 2) for nine
/// draws in ten, rank 2 (a 4) for the tenth.
pub fn tile_for_draw(x: u32) -> (t: u64)
    ensures
        t == if x < 9 { 1u64 } else { 2u64 },
{
    if x < 9 {
        1
    } else {
        2
    }
}

/// A new tile: rank 1 with probability 9/10, else rank 2.
pub fn draw_tile() -> (t: u64)
    ensures
        t == 1 || t == 2,
{
    tile_for_draw(unif_random(10))
}

/// Writing a tile into an empty cell leaves one empty cell fewer.
pub proof fn lemma_placed_count(b: u64, tile: u64, index: int, r: u64, k: int)
    requires
        placed_at(b, tile, index, r, k),
        tile != 0,
    ensures
        count_empty_spec(r) == count_empty_spec(b) - 1,
{
    lemma_placed_below(b, tile, index, r, k, 16);
}

proof fn lemma_placed_below(b: u64, tile: u64, index: int, r: u64, k: int, n: int)
    requires
        placed_at(b, tile, index, r, k),
        tile != 0,
        0 <= n <= 16,
    ensures
        empty_below(r, n) == empty_below(b, n) - if k < n { 1int } else { 0 },
    decreases n,
{
    if n > 0 {
        lemma_placed_below(b, tile, index, r, k, n - 1);
        if n - 1 != k {
            assert(cell(r, n - 1) == cell(b, n - 1));
        }
    }
}

/// Puts rank `tile` into an empty cell picked uniformly at random.
pub fn insert_tile_rand(board: u64, tile: u64) -> (r: u64)
    requires
        1 <= tile <= 15,
        count_empty_spec(board) > 0,
    ensures
        exists|index: int, k: int| 0 <= index < count_empty_spec(board) && placed_at(board, tile, index, r, k),
        count_empty_spec(r) == count_empty_spec(board) - 1,
{
    let index = unif_random(count_empty(board));
    let r = insert_tile_at(board, tile, index);
    proof {
        let k = choose|k: int| placed_at(board, tile, index as int, r, k);
        lemma_placed_count(board, tile, index as int, r, k);
    }
    r
}

/// A board with two random tiles on it, each drawn as `draw_tile` does.
pub fn initial_board() -> (b: u64)
    ensures
        count_empty_spec(b) == 14,
{
    proof {
        assert(count_empty_spec(0) == 16) by {
            assert forall|i: int| 0 <= i < 16 implies #[trigger] cell(0, i) == 0 by {
                let sh = (4 * i) as u64;
                assert((0u64 >> sh) & 0xf == 0) by (bit_vector);
            }
            reveal_with_fuel(empty_below, 17);
        }
    }
    let first = insert_tile_rand(0, draw_tile());
    insert_tile_rand(first, draw_tile())
}

impl Tables {
    /// Plays move `d` on `board` and, when it changes the board, adds a random
    /// tile: the new board and the rank of the tile added. `None` when the
    /// move changes nothing.
    pub fn play_move(&self, board: u64, d: i32) -> (r: Option<(u64, u64)>)
        requires
            self.wf(),
        ensures
            r is None <==> move_spec(board, d) == board,
            r matches Some(p) ==> p.1 == 1 || p.1 == 2,
            r matches Some(p) ==> exists|index: int, k: int|
                0 <= index < count_empty_spec(move_spec(board, d)) && placed_at(move_spec(board, d), p.1, index, p.0, k),
    {
        let moved = self.execute_move(board, d);
        if moved == board {
            return None;
        }
        proof {
            crate::tables::lemma_changed_has_empty(board, d);
        }
        let tile = draw_tile();
        let next = insert_tile_rand(moved, tile);
        let r = Some((next, tile));
        proof {
            let (index, k) = choose|index: int, k: int| 0 <= index < count_empty_spec(moved) && placed_at(moved, tile, index, next, k);
            let p = r->0;
            assert(p.0 == next && p.1 == tile);
            assert(0 <= index < count_empty_spec(move_spec(board, d)) && placed_at(move_spec(board, d), p.1, index, p.0, k));
        }
        r
    }
}

} // verus!
