//! The packed board: sixteen 4-bit cells in one `u64`, cell `i` in bits
//! `4i..4i+4`, row `r` made of cells `4r..4r+4`.
use vstd::prelude::*;

verus! {

/// A 4x4 grid of tile ranks (0 = empty, r > 0 = tile 2^r), four bits a cell.
pub type Board = u64;

/// Four cells of a row (or, after a transpose, of a column), 4 bits each.
pub type Row = u16;

/// The rank held in cell `i` (0..16) of a board.
pub open spec fn cell(b: u64, i: int) -> u64 {
    (b >> ((4 * i) as u64)) & 0xf
}

/// The rank held in cell `i` (0..4) of a row.
pub open spec fn nib(r: u16, i: int) -> u16 {
    (r >> ((4 * i) as u16)) & 0xf
}

/// Row `k` (0..4) of a board.
pub open spec fn row_of(b: u64, k: int) -> u16 {
    ((b >> ((16 * k) as u64)) & 0xffff) as u16
}

/// The board whose rows are `r0`..`r3`, top to bottom.
pub open spec fn pack_rows(r0: u16, r1: u16, r2: u16, r3: u16) -> u64 {
    (r0 as u64) | ((r1 as u64) << 16) | ((r2 as u64) << 32) | ((r3 as u64) << 48)
}

/// Rows and columns exchanged, by three masked shift-and-or steps.
pub open spec fn transpose_spec(x: u64) -> u64 {
    let a1 = x & 0xF0F00F0FF0F00F0F;
    let a2 = x & 0x0000F0F00000F0F0;
    let a3 = x & 0x0F0F00000F0F0000;
    let a = a1 | (a2 << 12) | (a3 >> 12);
    let b1 = a & 0xFF00FF0000FF00FF;
    let b2 = a & 0x00FF00FF00000000;
    let b3 = a & 0x00000000FF00FF00;
    b1 | (b2 >> 24) | (b3 << 24)
}

/// The row read from its other end.
pub open spec fn reverse_spec(r: u16) -> u16 {
    (r >> 12) | ((r >> 4) & 0x00F0) | ((r << 4) & 0x0F00) | (r << 12)
}

/// Exchanges rows and columns: cell (r, c) of the result is cell (c, r) of `x`.
pub fn transpose(x: u64) -> (t: u64)
    ensures
        t == transpose_spec(x),
        forall|r: int, c: int| 0 <= r < 4 && 0 <= c < 4 ==> #[trigger] cell(t, 4 * r + c) == cell(x, 4 * c + r),
{
    let a1 = x & 0xF0F00F0FF0F00F0F;
    let a2 = x & 0x0000F0F00000F0F0;
    let a3 = x & 0x0F0F00000F0F0000;
    let a = a1 | (a2 << 12) | (a3 >> 12);
    let b1 = a & 0xFF00FF0000FF00FF;
    let b2 = a & 0x00FF00FF00000000;
    let b3 = a & 0x00000000FF00FF00;
    let t = b1 | (b2 >> 24) | (b3 << 24);
    proof {
        assert(t == transpose_spec(x));
        lemma_transpose_cells(x);
    }
    t
}

/// Cell (r, c) of the transpose is cell (c, r) of the board.
pub proof fn lemma_transpose_cells(x: u64)
    ensures
        forall|r: int, c: int| 0 <= r < 4 && 0 <= c < 4 ==> #[trigger] cell(transpose_spec(x), 4 * r + c) == cell(x, 4 * c + r),
{
    let t = transpose_spec(x);
    assert(
        ((t >> 0) & 0xf) == ((x >> 0) & 0xf) && ((t >> 4) & 0xf) == ((x >> 16) & 0xf)
        && ((t >> 8) & 0xf) == ((x >> 32) & 0xf) && ((t >> 12) & 0xf) == ((x >> 48) & 0xf)
        && ((t >> 16) & 0xf) == ((x >> 4) & 0xf) && ((t >> 20) & 0xf) == ((x >> 20) & 0xf)
        && ((t >> 24) & 0xf) == ((x >> 36) & 0xf) && ((t >> 28) & 0xf) == ((x >> 52) & 0xf)
        && ((t >> 32) & 0xf) == ((x >> 8) & 0xf) && ((t >> 36) & 0xf) == ((x >> 24) & 0xf)
        && ((t >> 40) & 0xf) == ((x >> 40) & 0xf) && ((t >> 44) & 0xf) == ((x >> 56) & 0xf)
        && ((t >> 48) & 0xf) == ((x >> 12) & 0xf) && ((t >> 52) & 0xf) == ((x >> 28) & 0xf)
        && ((t >> 56) & 0xf) == ((x >> 44) & 0xf) && ((t >> 60) & 0xf) == ((x >> 60) & 0xf)
    ) by (bit_vector)
        requires
            t == transpose_spec(x),
    ;
    assert forall|r: int, c: int| 0 <= r < 4 && 0 <= c < 4 implies #[trigger] cell(t, 4 * r + c) == cell(x, 4 * c + r) by {
        assert(r == 0 || r == 1 || r == 2 || r == 3);
        assert(c == 0 || c == 1 || c == 2 || c == 3);
    }
}

/// Transposing twice gives the board back.
pub proof fn lemma_transpose_involution(b: u64)
    ensures
        transpose_spec(transpose_spec(b)) == b,
{
    let t = transpose_spec(b);
    let tt = transpose_spec(t);
    assert(tt == b) by (bit_vector)
        requires
            t == transpose_spec(b),
            tt == transpose_spec(t),
    ;
}

/// Empty cells among cells `0..n`.
pub open spec fn empty_below(b: u64, n: int) -> int
    decreases n,
{
    if n <= 0 {
        0
    } else {
        empty_below(b, n - 1) + if cell(b, n - 1) == 0 { 1int } else { 0 }
    }
}

/// Occupied cells among cells `0..n`.
pub open spec fn occupied_below(b: u64, n: int) -> int
    decreases n,
{
    if n <= 0 {
        0
    } else {
        occupied_below(b, n - 1) + if cell(b, n - 1) != 0 { 1int } else { 0 }
    }
}

/// Empty cells of a board.
pub open spec fn count_empty_spec(b: u64) -> int {
    empty_below(b, 16)
}

/// Occupied cells of a board.
pub open spec fn count_occupied_spec(b: u64) -> int {
    occupied_below(b, 16)
}

/// Every cell of a board is either empty or occupied: the two counts make 16.
pub proof fn lemma_empty_plus_occupied(b: u64)
    ensures
        count_empty_spec(b) + count_occupied_spec(b) == 16,
{
    lemma_counts_below(b, 16);
}

pub proof fn lemma_counts_below(b: u64, n: int)
    requires
        n >= 0,
    ensures
        empty_below(b, n) + occupied_below(b, n) == n,
        0 <= empty_below(b, n) <= n,
    decreases n,
{
    if n > 0 {
        lemma_counts_below(b, n - 1);
    }
}

/// Reads cell `i` by shift and mask.
pub proof fn lemma_cell_read(b: u64, i: u64)
    requires
        i < 16,
    ensures
        (b >> (4 * i)) & 0xf == cell(b, i as int),
        cell(b, i as int) <= 15,
{
    assert((b >> (4 * i)) & 0xf <= 15) by (bit_vector);
}

/// Counts the empty cells of a board.
pub fn count_empty(x: u64) -> (n: u32)
    ensures
        n == count_empty_spec(x),
        n <= 16,
{
    let mut n: u32 = 0;
    let mut i: u64 = 0;
    while i < 16
        invariant
            i <= 16,
            n == empty_below(x, i as int),
            n <= i,
        decreases 16 - i,
    {
        proof {
            lemma_cell_read(x, i);
            lemma_counts_below(x, i as int);
        }
        if (x >> (4 * i)) & 0xf == 0 {
            n = n + 1;
        }
        i = i + 1;
    }
    n
}

/// Writing rank `t` into empty cell `k` changes that cell alone.
proof fn lemma_set_cell(b: u64, t: u64, k: u64, j: u64)
    requires
        k < 16,
        j < 16,
        t <= 15,
        (b >> (4 * k)) & 0xf == 0,
    ensures
        ((b | (t << (4 * k))) >> (4 * j)) & 0xf == if j == k { t } else { (b >> (4 * j)) & 0xf },
{
    assert(((b | (t << (4 * k))) >> (4 * j)) & 0xf == if j == k { t } else { (b >> (4 * j)) & 0xf })
        by (bit_vector)
        requires
            k < 16,
            j < 16,
            t <= 15,
            (b >> (4 * k)) & 0xf == 0,
    ;
}

/// `r` is `b` with rank `tile` written into its empty cell `k`, the cell that
/// has `index` empty cells before it.
pub open spec fn placed_at(b: u64, tile: u64, index: int, r: u64, k: int) -> bool {
    &&& 0 <= k < 16
    &&& cell(b, k) == 0
    &&& empty_below(b, k) == index
    &&& cell(r, k) == tile
    &&& forall|j: int| 0 <= j < 16 && j != k ==> #[trigger] cell(r, j) == cell(b, j)
}

/// Writes rank `tile` into the empty cell that has `index` empty cells before
/// it, counting from cell 0.
pub fn insert_tile_at(board: u64, tile: u64, index: u32) -> (r: u64)
    requires
        1 <= tile <= 15,
        index < count_empty_spec(board),
    ensures
        exists|k: int| placed_at(board, tile, index as int, r, k),
{
    let mut seen: u32 = 0;
    let mut i: u64 = 0;
    while i < 16
        invariant
            i <= 16,
            seen == empty_below(board, i as int),
            seen <= index,
            index < count_empty_spec(board),
            1 <= tile <= 15,
        decreases 16 - i,
    {
        proof {
            lemma_cell_read(board, i);
        }
        if (board >> (4 * i)) & 0xf == 0 {
            if seen == index {
                let r = board | (tile << (4 * i));
                proof {
                    assert forall|j: int| 0 <= j < 16 implies #[trigger] cell(r, j) == if j == i { tile } else { cell(board, j) } by {
                        lemma_set_cell(board, tile, i, j as u64);
                        lemma_cell_read(board, j as u64);
                        lemma_cell_read(r, j as u64);
                    }
                    assert(placed_at(board, tile, index as int, r, i as int));
                }
                return r;
            }
            seen = seen + 1;
        }
        i = i + 1;
    }
    proof {
        lemma_empty_monotone(board, i as int, 16);
    }
    assert(false);
    board
}

proof fn lemma_empty_monotone(b: u64, m: int, n: int)
    requires
        0 <= m <= n,
    ensures
        empty_below(b, m) <= empty_below(b, n),
    decreases n - m,
{
    if m < n {
        lemma_empty_monotone(b, m, n - 1);
    }
}

} // verus!
