//! Per-row lookup tables for every 16-bit row, and the moves, scores and
//! heuristic of whole boards built on them.
use vstd::prelude::*;
use crate::board::{cell, count_empty_spec, empty_below, nib, pack_rows, row_of, transpose, transpose_spec, lemma_transpose_cells,
    lemma_transpose_involution};
use crate::line::{line, no_merge, packed, ranks_ok, slide_left_spec, slide_right_spec, slide_line,
    score_row_spec, slide_row_left, reverse_row, score_row, lemma_line_pack, lemma_pack_line,
    lemma_reverse, lemma_slide_line, lemma_slide_settled};
use crate::heuristic::{heur_row_spec, heur_row, sum_power_table, ROW_BOUND};

verus! {

pub const UP: i32 = 0;
pub const DOWN: i32 = 1;
pub const LEFT: i32 = 2;
pub const RIGHT: i32 = 3;

/// Number of distinct rows.
pub const TABLE_SIZE: usize = 65536;

/// A bound on the heuristic of a board, either sign.
pub const BOARD_BOUND: i64 = 100_000_000_000_000;

/// Lookup tables indexed by a row's 16 bits.
pub struct Tables {
    /// Row XOR the row moved left.
    pub row_left: Vec<u16>,
    /// Row XOR the row moved right.
    pub row_right: Vec<u16>,
    /// Game score of the row.
    pub score: Vec<u32>,
    /// Heuristic of the row, in units.
    pub heur: Vec<i64>,
}

/// A board moved left: each row moved left.
pub open spec fn left_spec(b: u64) -> u64 {
    pack_rows(slide_left_spec(row_of(b, 0)), slide_left_spec(row_of(b, 1)),
        slide_left_spec(row_of(b, 2)), slide_left_spec(row_of(b, 3)))
}

/// A board moved right: each row moved right.
pub open spec fn right_spec(b: u64) -> u64 {
    pack_rows(slide_right_spec(row_of(b, 0)), slide_right_spec(row_of(b, 1)),
        slide_right_spec(row_of(b, 2)), slide_right_spec(row_of(b, 3)))
}

/// A board after a move in direction `d`; a board that no direction names is
/// left as it is.
pub open spec fn move_spec(b: u64, d: i32) -> u64 {
    if d == UP {
        transpose_spec(left_spec(transpose_spec(b)))
    } else if d == DOWN {
        transpose_spec(right_spec(transpose_spec(b)))
    } else if d == LEFT {
        left_spec(b)
    } else if d == RIGHT {
        right_spec(b)
    } else {
        b
    }
}

/// The game score of a board: the score of its four rows.
pub open spec fn score_board_spec(b: u64) -> int {
    score_row_spec(row_of(b, 0)) + score_row_spec(row_of(b, 1)) + score_row_spec(row_of(b, 2))
        + score_row_spec(row_of(b, 3))
}

/// The heuristic of the four rows of a board, in units.
pub open spec fn heur_rows(b: u64) -> int {
    heur_row_spec(row_of(b, 0)) + heur_row_spec(row_of(b, 1)) + heur_row_spec(row_of(b, 2))
        + heur_row_spec(row_of(b, 3))
}

/// The heuristic of a board, in units: that of its rows and of its columns.
pub open spec fn heur_board_spec(b: u64) -> int {
    heur_rows(b) + heur_rows(transpose_spec(b))
}

impl Tables {
    /// Each table holds, at every row, what its name says.
    pub open spec fn wf(&self) -> bool {
        &&& self.row_left@.len() == TABLE_SIZE
        &&& self.row_right@.len() == TABLE_SIZE
        &&& self.score@.len() == TABLE_SIZE
        &&& self.heur@.len() == TABLE_SIZE
        &&& forall|r: u16| #[trigger] self.row_left@[r as int] == r ^ slide_left_spec(r)
        &&& forall|r: u16| #[trigger] self.row_right@[r as int] == r ^ slide_right_spec(r)
        &&& forall|r: u16| #[trigger] self.score@[r as int] == score_row_spec(r)
        &&& forall|r: u16| #[trigger] self.heur@[r as int] == heur_row_spec(r)
        &&& forall|r: u16| #[trigger] self.score@[r as int] <= 4 * 14 * 32768
        &&& forall|r: u16| -ROW_BOUND <= #[trigger] self.heur@[r as int] <= ROW_BOUND
    }

    /// Builds the tables for all 65536 rows.
    pub fn init_tables() -> (t: Tables)
        ensures
            t.wf(),
    {
        let powers = sum_power_table();
        let mut row_left: Vec<u16> = Vec::new();
        let mut row_right: Vec<u16> = Vec::new();
        let mut score: Vec<u32> = Vec::new();
        let mut heur: Vec<i64> = Vec::new();
        let mut i: usize = 0;
        while i < TABLE_SIZE
            invariant
                i <= TABLE_SIZE,
                crate::heuristic::powers_ok(powers@),
                row_left@.len() == i,
                row_right@.len() == i,
                score@.len() == i,
                heur@.len() == i,
                forall|r: u16| (r as int) < i ==> #[trigger] row_left@[r as int] == r ^ slide_left_spec(r),
                forall|r: u16| (r as int) < i ==> #[trigger] row_right@[r as int] == r ^ slide_right_spec(r),
                forall|r: u16| (r as int) < i ==> #[trigger] score@[r as int] == score_row_spec(r),
                forall|r: u16| (r as int) < i ==> #[trigger] heur@[r as int] == heur_row_spec(r),
                forall|r: u16| (r as int) < i ==> #[trigger] score@[r as int] <= 4 * 14 * 32768,
                forall|r: u16| (r as int) < i ==> -ROW_BOUND <= #[trigger] heur@[r as int] <= ROW_BOUND,
            decreases TABLE_SIZE - i,
        {
            let row = i as u16;
            let left = slide_row_left(row);
            let right = reverse_row(slide_row_left(reverse_row(row)));
            row_left.push(row ^ left);
            row_right.push(row ^ right);
            score.push(score_row(row));
            heur.push(heur_row(row, &powers));
            i = i + 1;
        }
        Tables { row_left, row_right, score, heur }
    }

    fn move_left(&self, b: u64) -> (r: u64)
        requires
            self.wf(),
        ensures
            r == left_spec(b),
    {
        let r0 = (b & 0xffff) as u16;
        let r1 = ((b >> 16) & 0xffff) as u16;
        let r2 = ((b >> 32) & 0xffff) as u16;
        let r3 = ((b >> 48) & 0xffff) as u16;
        proof {
            lemma_rows(b);
        }
        let p0 = self.row_left[r0 as usize];
        let p1 = self.row_left[r1 as usize];
        let p2 = self.row_left[r2 as usize];
        let p3 = self.row_left[r3 as usize];
        proof {
            lemma_apply_patches(b, slide_left_spec(row_of(b, 0)), slide_left_spec(row_of(b, 1)),
                slide_left_spec(row_of(b, 2)), slide_left_spec(row_of(b, 3)));
        }
        b ^ (p0 as u64) ^ ((p1 as u64) << 16) ^ ((p2 as u64) << 32) ^ ((p3 as u64) << 48)
    }

    fn move_right(&self, b: u64) -> (r: u64)
        requires
            self.wf(),
        ensures
            r == right_spec(b),
    {
        let r0 = (b & 0xffff) as u16;
        let r1 = ((b >> 16) & 0xffff) as u16;
        let r2 = ((b >> 32) & 0xffff) as u16;
        let r3 = ((b >> 48) & 0xffff) as u16;
        proof {
            lemma_rows(b);
        }
        let p0 = self.row_right[r0 as usize];
        let p1 = self.row_right[r1 as usize];
        let p2 = self.row_right[r2 as usize];
        let p3 = self.row_right[r3 as usize];
        proof {
            lemma_apply_patches(b, slide_right_spec(row_of(b, 0)), slide_right_spec(row_of(b, 1)),
                slide_right_spec(row_of(b, 2)), slide_right_spec(row_of(b, 3)));
        }
        b ^ (p0 as u64) ^ ((p1 as u64) << 16) ^ ((p2 as u64) << 32) ^ ((p3 as u64) << 48)
    }

    fn move_up(&self, b: u64) -> (r: u64)
        requires
            self.wf(),
        ensures
            r == transpose_spec(left_spec(transpose_spec(b))),
    {
        let t = transpose(b);
        let r0 = (t & 0xffff) as u16;
        let r1 = ((t >> 16) & 0xffff) as u16;
        let r2 = ((t >> 32) & 0xffff) as u16;
        let r3 = ((t >> 48) & 0xffff) as u16;
        proof {
            lemma_rows(t);
            lemma_apply_column_patches(b, slide_left_spec(row_of(t, 0)), slide_left_spec(row_of(t, 1)),
                slide_left_spec(row_of(t, 2)), slide_left_spec(row_of(t, 3)));
        }
        b ^ unpack_col(self.row_left[r0 as usize]) ^ (unpack_col(self.row_left[r1 as usize]) << 4)
            ^ (unpack_col(self.row_left[r2 as usize]) << 8) ^ (unpack_col(self.row_left[r3 as usize]) << 12)
    }

    fn move_down(&self, b: u64) -> (r: u64)
        requires
            self.wf(),
        ensures
            r == transpose_spec(right_spec(transpose_spec(b))),
    {
        let t = transpose(b);
        let r0 = (t & 0xffff) as u16;
        let r1 = ((t >> 16) & 0xffff) as u16;
        let r2 = ((t >> 32) & 0xffff) as u16;
        let r3 = ((t >> 48) & 0xffff) as u16;
        proof {
            lemma_rows(t);
            lemma_apply_column_patches(b, slide_right_spec(row_of(t, 0)), slide_right_spec(row_of(t, 1)),
                slide_right_spec(row_of(t, 2)), slide_right_spec(row_of(t, 3)));
        }
        b ^ unpack_col(self.row_right[r0 as usize]) ^ (unpack_col(self.row_right[r1 as usize]) << 4)
            ^ (unpack_col(self.row_right[r2 as usize]) << 8) ^ (unpack_col(self.row_right[r3 as usize]) << 12)
    }

    /// The board after a move in direction `d` (UP, DOWN, LEFT or RIGHT),
    /// each row (or column, read as a row of the transpose) patched from the
    /// tables: the board itself when nothing slides or merges, which is how a
    /// move is known to be illegal.
    pub fn execute_move(&self, board: u64, d: i32) -> (r: u64)
        requires
            self.wf(),
        ensures
            r == move_spec(board, d),
    {
        if d == UP {
            self.move_up(board)
        } else if d == DOWN {
            self.move_down(board)
        } else if d == LEFT {
            self.move_left(board)
        } else if d == RIGHT {
            self.move_right(board)
        } else {
            board
        }
    }

    /// The game score of a board: the merge score of its four rows.
    pub fn score_board(&self, board: u64) -> (s: u32)
        requires
            self.wf(),
        ensures
            s == score_board_spec(board),
    {
        let r0 = (board & 0xffff) as u16;
        let r1 = ((board >> 16) & 0xffff) as u16;
        let r2 = ((board >> 32) & 0xffff) as u16;
        let r3 = ((board >> 48) & 0xffff) as u16;
        proof {
            lemma_rows(board);
        }
        self.score[r0 as usize] + self.score[r1 as usize]
            + self.score[r2 as usize] + self.score[r3 as usize]
    }

    fn heur_of_rows(&self, board: u64) -> (s: i64)
        requires
            self.wf(),
        ensures
            s == heur_rows(board),
            -4 * ROW_BOUND <= s <= 4 * ROW_BOUND,
    {
        let r0 = (board & 0xffff) as u16;
        let r1 = ((board >> 16) & 0xffff) as u16;
        let r2 = ((board >> 32) & 0xffff) as u16;
        let r3 = ((board >> 48) & 0xffff) as u16;
        proof {
            lemma_rows(board);
        }
        self.heur[r0 as usize] + self.heur[r1 as usize]
            + self.heur[r2 as usize] + self.heur[r3 as usize]
    }

    /// The heuristic of a board, in units: its four rows and its four columns.
    pub fn score_heur_board(&self, board: u64) -> (s: i64)
        requires
            self.wf(),
        ensures
            s == heur_board_spec(board),
            -BOARD_BOUND <= s <= BOARD_BOUND,
    {
        let a = self.heur_of_rows(board);
        let b = self.heur_of_rows(transpose(board));
        a + b
    }
}

/// Spreads the four cells of a row down column 0 of a board.
pub open spec fn unpack_col_spec(row: u16) -> u64 {
    let tmp = row as u64;
    (tmp | (tmp << 12) | (tmp << 24) | (tmp << 36)) & 0x000F_000F_000F_000F
}

/// Spreads the four cells of a row down column 0: cell `j` of the row goes
/// to row `j`.
pub fn unpack_col(row: u16) -> (c: u64)
    ensures
        c == unpack_col_spec(row),
{
    let tmp = row as u64;
    (tmp | (tmp << 12) | (tmp << 24) | (tmp << 36)) & 0x000F_000F_000F_000F
}

/// XOR-ing each column of a board with (column XOR new column), the columns
/// read as the rows of the transpose, gives the transpose of the board of the
/// new columns.
proof fn lemma_apply_column_patches(b: u64, s0: u16, s1: u16, s2: u16, s3: u16)
    ensures
        b ^ unpack_col_spec(row_of(transpose_spec(b), 0) ^ s0) ^ (unpack_col_spec(row_of(transpose_spec(b), 1) ^ s1) << 4)
            ^ (unpack_col_spec(row_of(transpose_spec(b), 2) ^ s2) << 8) ^ (unpack_col_spec(row_of(transpose_spec(b), 3) ^ s3) << 12)
            == transpose_spec(pack_rows(s0, s1, s2, s3)),
{
    let t = transpose_spec(b);
    lemma_rows(t);
    let r0 = ((t & 0xffff) as u16);
    let r1 = (((t >> 16) & 0xffff) as u16);
    let r2 = (((t >> 32) & 0xffff) as u16);
    let r3 = (((t >> 48) & 0xffff) as u16);
    let p = pack_rows(s0, s1, s2, s3);
    assert(b ^ unpack_col_spec(r0 ^ s0) ^ (unpack_col_spec(r1 ^ s1) << 4) ^ (unpack_col_spec(r2 ^ s2) << 8)
        ^ (unpack_col_spec(r3 ^ s3) << 12) == transpose_spec(p)) by (bit_vector)
        requires
            t == transpose_spec(b),
            r0 == ((t & 0xffff) as u16),
            r1 == (((t >> 16) & 0xffff) as u16),
            r2 == (((t >> 32) & 0xffff) as u16),
            r3 == (((t >> 48) & 0xffff) as u16),
            p == (s0 as u64) | ((s1 as u64) << 16) | ((s2 as u64) << 32) | ((s3 as u64) << 48),
    ;
}

/// The rows of a board, read by shifts and masks, are its `row_of`.
proof fn lemma_rows(b: u64)
    ensures
        ((b & 0xffff) as u16) == row_of(b, 0),
        (((b >> 16) & 0xffff) as u16) == row_of(b, 1),
        (((b >> 32) & 0xffff) as u16) == row_of(b, 2),
        (((b >> 48) & 0xffff) as u16) == row_of(b, 3),
        (b & 0xffff) < 65536,
        ((b >> 16) & 0xffff) < 65536,
        ((b >> 32) & 0xffff) < 65536,
        ((b >> 48) & 0xffff) < 65536,
{
    assert((b & 0xffff) == (b >> 0) & 0xffff && (b & 0xffff) < 65536 && ((b >> 16) & 0xffff) < 65536
        && ((b >> 32) & 0xffff) < 65536 && ((b >> 48) & 0xffff) < 65536) by (bit_vector);
}

/// XOR-ing each row of a board with (row XOR new row) gives the board of the
/// new rows.
proof fn lemma_apply_patches(b: u64, s0: u16, s1: u16, s2: u16, s3: u16)
    ensures
        b ^ (((row_of(b, 0) ^ s0) as u64)) ^ (((row_of(b, 1) ^ s1) as u64) << 16)
            ^ (((row_of(b, 2) ^ s2) as u64) << 32) ^ (((row_of(b, 3) ^ s3) as u64) << 48)
            == pack_rows(s0, s1, s2, s3),
{
    lemma_rows(b);
    let r0 = ((b & 0xffff) as u16);
    let r1 = (((b >> 16) & 0xffff) as u16);
    let r2 = (((b >> 32) & 0xffff) as u16);
    let r3 = (((b >> 48) & 0xffff) as u16);
    assert(b ^ (((r0 ^ s0) as u64)) ^ (((r1 ^ s1) as u64) << 16) ^ (((r2 ^ s2) as u64) << 32)
        ^ (((r3 ^ s3) as u64) << 48) == (s0 as u64) | ((s1 as u64) << 16) | ((s2 as u64) << 32)
        | ((s3 as u64) << 48)) by (bit_vector)
        requires
            r0 == ((b & 0xffff) as u16),
            r1 == (((b >> 16) & 0xffff) as u16),
            r2 == (((b >> 32) & 0xffff) as u16),
            r3 == (((b >> 48) & 0xffff) as u16),
    ;
}

/// No row of the board has two equal neighbouring tiles.
pub open spec fn rows_settled(b: u64) -> bool {
    forall|k: int| 0 <= k < 4 ==> no_merge(#[trigger] line(row_of(b, k)))
}

/// No line of the board along direction `d` has two equal neighbouring tiles.
pub open spec fn settled(b: u64, d: i32) -> bool {
    if d == UP || d == DOWN {
        rows_settled(transpose_spec(b))
    } else {
        rows_settled(b)
    }
}

/// Every cell of the board holds a tile.
pub open spec fn full(b: u64) -> bool {
    forall|i: int| 0 <= i < 16 ==> #[trigger] cell(b, i) != 0
}

proof fn lemma_row_of_pack(s0: u16, s1: u16, s2: u16, s3: u16)
    ensures
        row_of(pack_rows(s0, s1, s2, s3), 0) == s0,
        row_of(pack_rows(s0, s1, s2, s3), 1) == s1,
        row_of(pack_rows(s0, s1, s2, s3), 2) == s2,
        row_of(pack_rows(s0, s1, s2, s3), 3) == s3,
{
    let b = pack_rows(s0, s1, s2, s3);
    lemma_rows(b);
    assert(((b & 0xffff) as u16) == s0 && (((b >> 16) & 0xffff) as u16) == s1
        && (((b >> 32) & 0xffff) as u16) == s2 && (((b >> 48) & 0xffff) as u16) == s3) by (bit_vector)
        requires
            b == (s0 as u64) | ((s1 as u64) << 16) | ((s2 as u64) << 32) | ((s3 as u64) << 48),
    ;
}

proof fn lemma_pack_of_rows(b: u64)
    ensures
        pack_rows(row_of(b, 0), row_of(b, 1), row_of(b, 2), row_of(b, 3)) == b,
{
    lemma_rows(b);
    let r0 = ((b & 0xffff) as u16);
    let r1 = (((b >> 16) & 0xffff) as u16);
    let r2 = (((b >> 32) & 0xffff) as u16);
    let r3 = (((b >> 48) & 0xffff) as u16);
    assert((r0 as u64) | ((r1 as u64) << 16) | ((r2 as u64) << 32) | ((r3 as u64) << 48) == b) by (bit_vector)
        requires
            r0 == ((b & 0xffff) as u16),
            r1 == (((b >> 16) & 0xffff) as u16),
            r2 == (((b >> 32) & 0xffff) as u16),
            r3 == (((b >> 48) & 0xffff) as u16),
    ;
}

/// Cell `j` of row `k` is cell `4k + j` of the board.
proof fn lemma_row_cells(b: u64)
    ensures
        forall|k: int, j: int| 0 <= k < 4 && 0 <= j < 4 ==> #[trigger] line(row_of(b, k))[j] == cell(b, 4 * k + j),
{
    let r0 = row_of(b, 0);
    let r1 = row_of(b, 1);
    let r2 = row_of(b, 2);
    let r3 = row_of(b, 3);
    lemma_rows(b);
    assert(nib(r0, 0) == (b >> 0) & 0xf && nib(r0, 1) == (b >> 4) & 0xf && nib(r0, 2) == (b >> 8) & 0xf
        && nib(r0, 3) == (b >> 12) & 0xf && nib(r1, 0) == (b >> 16) & 0xf && nib(r1, 1) == (b >> 20) & 0xf
        && nib(r1, 2) == (b >> 24) & 0xf && nib(r1, 3) == (b >> 28) & 0xf && nib(r2, 0) == (b >> 32) & 0xf
        && nib(r2, 1) == (b >> 36) & 0xf && nib(r2, 2) == (b >> 40) & 0xf && nib(r2, 3) == (b >> 44) & 0xf
        && nib(r3, 0) == (b >> 48) & 0xf && nib(r3, 1) == (b >> 52) & 0xf && nib(r3, 2) == (b >> 56) & 0xf
        && nib(r3, 3) == (b >> 60) & 0xf) by (bit_vector)
        requires
            r0 == ((b & 0xffff) as u16),
            r1 == (((b >> 16) & 0xffff) as u16),
            r2 == (((b >> 32) & 0xffff) as u16),
            r3 == (((b >> 48) & 0xffff) as u16),
    ;
    assert forall|k: int, j: int| 0 <= k < 4 && 0 <= j < 4 implies #[trigger] line(row_of(b, k))[j] == cell(b, 4 * k + j) by {
        assert(k == 0 || k == 1 || k == 2 || k == 3);
        assert(j == 0 || j == 1 || j == 2 || j == 3);
    }
}

proof fn lemma_no_merge_reverse(s: Seq<int>)
    requires
        s.len() == 4,
        no_merge(s),
    ensures
        no_merge(s.reverse()),
{
    let v = s.reverse();
    assert forall|i: int| 0 <= i < v.len() - 1 implies !(#[trigger] v[i] != 0 && v[i] == v[i + 1]) by {
        assert(v[i] == s[3 - i] && v[i + 1] == s[2 - i]);
        assert(!(s[2 - i] != 0 && s[2 - i] == s[2 - i + 1]));
    }
}

/// A row moved left: its line is the moved line, packed.
proof fn lemma_slide_left_row(r: u16)
    ensures
        line(slide_left_spec(r)) == slide_line(line(r)),
        packed(line(slide_left_spec(r))),
        ranks_ok(line(slide_left_spec(r))),
{
    lemma_line_pack(r);
    lemma_slide_line(line(r));
    lemma_pack_line(slide_line(line(r)));
}

/// A packed row with no equal neighbours stays as it is when moved left.
proof fn lemma_slide_left_fixed(r: u16)
    requires
        packed(line(r)),
        no_merge(line(r)),
    ensures
        slide_left_spec(r) == r,
{
    lemma_line_pack(r);
    lemma_slide_settled(line(r));
}

proof fn lemma_slide_left_twice(r: u16)
    requires
        no_merge(line(slide_left_spec(r))),
    ensures
        slide_left_spec(slide_left_spec(r)) == slide_left_spec(r),
{
    lemma_slide_left_row(r);
    lemma_slide_left_fixed(slide_left_spec(r));
}

proof fn lemma_slide_right_twice(r: u16)
    requires
        no_merge(line(slide_right_spec(r))),
    ensures
        slide_right_spec(slide_right_spec(r)) == slide_right_spec(r),
{
    let u = slide_left_spec(crate::board::reverse_spec(r));
    let s = slide_right_spec(r);
    lemma_reverse(u);
    lemma_line_pack(s);
    lemma_no_merge_reverse(line(s));
    lemma_slide_left_row(crate::board::reverse_spec(r));
    lemma_slide_left_fixed(u);
}

proof fn lemma_left_twice(b: u64)
    requires
        rows_settled(left_spec(b)),
    ensures
        left_spec(left_spec(b)) == left_spec(b),
{
    let m = left_spec(b);
    lemma_row_of_pack(slide_left_spec(row_of(b, 0)), slide_left_spec(row_of(b, 1)),
        slide_left_spec(row_of(b, 2)), slide_left_spec(row_of(b, 3)));
    assert(no_merge(line(row_of(m, 0))) && no_merge(line(row_of(m, 1))) && no_merge(line(row_of(m, 2)))
        && no_merge(line(row_of(m, 3))));
    lemma_slide_left_twice(row_of(b, 0));
    lemma_slide_left_twice(row_of(b, 1));
    lemma_slide_left_twice(row_of(b, 2));
    lemma_slide_left_twice(row_of(b, 3));
}

proof fn lemma_right_twice(b: u64)
    requires
        rows_settled(right_spec(b)),
    ensures
        right_spec(right_spec(b)) == right_spec(b),
{
    let m = right_spec(b);
    lemma_row_of_pack(slide_right_spec(row_of(b, 0)), slide_right_spec(row_of(b, 1)),
        slide_right_spec(row_of(b, 2)), slide_right_spec(row_of(b, 3)));
    assert(no_merge(line(row_of(m, 0))) && no_merge(line(row_of(m, 1))) && no_merge(line(row_of(m, 2)))
        && no_merge(line(row_of(m, 3))));
    lemma_slide_right_twice(row_of(b, 0));
    lemma_slide_right_twice(row_of(b, 1));
    lemma_slide_right_twice(row_of(b, 2));
    lemma_slide_right_twice(row_of(b, 3));
}

/// Moving again in the same direction changes nothing, provided the first
/// move left no two equal tiles side by side along that direction.
pub proof fn lemma_move_idempotent(b: u64, d: i32)
    requires
        settled(move_spec(b, d), d),
    ensures
        move_spec(move_spec(b, d), d) == move_spec(b, d),
{
    if d == UP {
        let t = transpose_spec(b);
        lemma_transpose_involution(left_spec(t));
        lemma_left_twice(t);
    } else if d == DOWN {
        let t = transpose_spec(b);
        lemma_transpose_involution(right_spec(t));
        lemma_right_twice(t);
    } else if d == LEFT {
        lemma_left_twice(b);
    } else if d == RIGHT {
        lemma_right_twice(b);
    }
}

proof fn lemma_left_changed(b: u64)
    requires
        left_spec(b) != b,
    ensures
        exists|i: int| 0 <= i < 16 && #[trigger] cell(left_spec(b), i) == 0,
{
    let m = left_spec(b);
    lemma_pack_of_rows(b);
    lemma_row_of_pack(slide_left_spec(row_of(b, 0)), slide_left_spec(row_of(b, 1)),
        slide_left_spec(row_of(b, 2)), slide_left_spec(row_of(b, 3)));
    lemma_row_cells(m);
    let k: int = if slide_left_spec(row_of(b, 0)) != row_of(b, 0) { 0 } else if slide_left_spec(row_of(b, 1))
        != row_of(b, 1) { 1 } else if slide_left_spec(row_of(b, 2)) != row_of(b, 2) { 2 } else { 3 };
    let r = row_of(b, k);
    assert(slide_left_spec(r) != r);
    lemma_slide_left_row(r);
    lemma_line_pack(r);
    if slide_line(line(r)) == line(r) {
        assert(slide_left_spec(r) == r);
    }
    crate::line::lemma_slide_changed(line(r));
    assert(line(row_of(m, k))[3] == 0);
    assert(cell(m, 4 * k + 3) == 0);
}

proof fn lemma_right_changed(b: u64)
    requires
        right_spec(b) != b,
    ensures
        exists|i: int| 0 <= i < 16 && #[trigger] cell(right_spec(b), i) == 0,
{
    let m = right_spec(b);
    lemma_pack_of_rows(b);
    lemma_row_of_pack(slide_right_spec(row_of(b, 0)), slide_right_spec(row_of(b, 1)),
        slide_right_spec(row_of(b, 2)), slide_right_spec(row_of(b, 3)));
    lemma_row_cells(m);
    let k: int = if slide_right_spec(row_of(b, 0)) != row_of(b, 0) { 0 } else if slide_right_spec(row_of(b, 1))
        != row_of(b, 1) { 1 } else if slide_right_spec(row_of(b, 2)) != row_of(b, 2) { 2 } else { 3 };
    let r = row_of(b, k);
    let v = crate::board::reverse_spec(r);
    let u = slide_left_spec(v);
    assert(slide_right_spec(r) != r);
    lemma_reverse(r);
    lemma_reverse(u);
    assert(u != v);
    lemma_slide_left_row(v);
    lemma_line_pack(v);
    if slide_line(line(v)) == line(v) {
        assert(u == v);
    }
    crate::line::lemma_slide_changed(line(v));
    assert(line(row_of(m, k))[0] == 0);
    assert(cell(m, 4 * k) == 0);
}

/// A move that changes the board leaves at least one empty cell.
pub proof fn lemma_changed_has_empty(b: u64, d: i32)
    requires
        move_spec(b, d) != b,
    ensures
        count_empty_spec(move_spec(b, d)) > 0,
{
    let m = move_spec(b, d);
    if d == UP || d == DOWN {
        let t = transpose_spec(b);
        let x = if d == UP { left_spec(t) } else { right_spec(t) };
        lemma_transpose_involution(b);
        assert(x != t);
        if d == UP {
            lemma_left_changed(t);
        } else {
            lemma_right_changed(t);
        }
        let i = choose|i: int| 0 <= i < 16 && #[trigger] cell(x, i) == 0;
        lemma_transpose_cells(x);
        let r = i / 4;
        let c = i % 4;
        assert(cell(transpose_spec(x), 4 * c + r) == cell(x, 4 * r + c));
        lemma_empty_from_cell(m, 4 * c + r);
    } else if d == LEFT {
        lemma_left_changed(b);
        let i = choose|i: int| 0 <= i < 16 && #[trigger] cell(m, i) == 0;
        lemma_empty_from_cell(m, i);
    } else {
        lemma_right_changed(b);
        let i = choose|i: int| 0 <= i < 16 && #[trigger] cell(m, i) == 0;
        lemma_empty_from_cell(m, i);
    }
}

proof fn lemma_empty_from_cell(b: u64, i: int)
    requires
        0 <= i < 16,
        cell(b, i) == 0,
    ensures
        count_empty_spec(b) > 0,
{
    lemma_empty_from_cell_below(b, i, 16);
}

proof fn lemma_empty_from_cell_below(b: u64, i: int, n: int)
    requires
        0 <= i < n,
        cell(b, i) == 0,
    ensures
        empty_below(b, n) > 0,
    decreases n,
{
    if n - 1 != i {
        lemma_empty_from_cell_below(b, i, n - 1);
    }
    crate::board::lemma_counts_below(b, n - 1);
}

proof fn lemma_full_rows_fixed(b: u64)
    requires
        full(b),
        rows_settled(b),
    ensures
        left_spec(b) == b,
        right_spec(b) == b,
{
    lemma_row_cells(b);
    lemma_pack_of_rows(b);
    assert forall|k: int| 0 <= k < 4 implies slide_left_spec(#[trigger] row_of(b, k)) == row_of(b, k)
        && slide_right_spec(row_of(b, k)) == row_of(b, k) by {
        let r = row_of(b, k);
        let s = line(r);
        assert(no_merge(s));
        assert forall|j: int| 0 <= j < 4 implies #[trigger] s[j] != 0 by {
            assert(s[j] == cell(b, 4 * k + j));
        }
        assert(packed(s));
        lemma_slide_left_fixed(r);
        let v = crate::board::reverse_spec(r);
        lemma_reverse(r);
        lemma_no_merge_reverse(s);
        assert(packed(line(v)));
        lemma_slide_left_fixed(v);
    }
}

/// On a board with no empty cell and no two equal tiles side by side along
/// `d`, a move in direction `d` changes nothing.
pub proof fn lemma_full_settled_unchanged(b: u64, d: i32)
    requires
        full(b),
        settled(b, d),
    ensures
        move_spec(b, d) == b,
{
    if d == UP || d == DOWN {
        let t = transpose_spec(b);
        lemma_transpose_cells(b);
        assert forall|i: int| 0 <= i < 16 implies #[trigger] cell(t, i) != 0 by {
            let r = i / 4;
            let c = i % 4;
            assert(i == 4 * r + c);
            assert(cell(t, 4 * r + c) == cell(b, 4 * c + r));
        }
        lemma_full_rows_fixed(t);
        lemma_transpose_involution(b);
    } else {
        lemma_full_rows_fixed(b);
    }
}

} // verus!
