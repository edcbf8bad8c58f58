use ai2048::board::{count_empty, insert_tile_at, transpose};
use ai2048::heuristic::{heur_row, sum_power_of, sum_power_table};
use ai2048::line::{reverse_row, score_row, slide_row_left};
use ai2048::random::{draw_tile, initial_board, insert_tile_rand, tile_for_draw};

fn cells(b: u64) -> Vec<u64> {
    (0..16).map(|i| (b >> (4 * i)) & 0xf).collect()
}

#[test]
fn transpose_swaps_rows_and_columns() {
    // row 0 holds ranks 1, 2, 3, 4; the rest is empty
    let b: u64 = 0x4321;
    let t = transpose(b);
    assert_eq!(t, 0x0004_0003_0002_0001);
    assert_eq!(transpose(t), b);
}

#[test]
fn transpose_twice_is_identity() {
    for &b in &[0u64, 0x0123_4567_89ab_cdef, 0xffff_0000_ffff_0000, 0x1320_3210_1320_3210, u64::MAX] {
        assert_eq!(transpose(transpose(b)), b);
    }
}

#[test]
fn count_empty_counts_zero_cells() {
    assert_eq!(count_empty(0), 16);
    assert_eq!(count_empty(0x1000_0000_0000_0001), 14);
    assert_eq!(count_empty(0x1111_1111_1111_1111), 0);
    assert_eq!(count_empty(0x0f00_f0f0_0000_000f), 12);
}

#[test]
fn empty_and_occupied_make_sixteen() {
    for &b in &[0u64, 0x0123_4567_89ab_cdef, 0x1000_0000_0000_0001, u64::MAX] {
        let occupied = cells(b).iter().filter(|&&c| c != 0).count() as u32;
        assert_eq!(count_empty(b) + occupied, 16);
    }
}

#[test]
fn pair_merges_into_rank_three() {
    // ranks [2, 2, 0, 0] become [3, 0, 0, 0], worth (3 - 1) * 2^3
    let moved = slide_row_left(0x0022);
    assert_eq!(moved, 0x0003);
    assert_eq!(score_row(moved), 16);
}

#[test]
fn merged_tile_does_not_merge_again() {
    // ranks [2, 0, 2, 2] become [3, 2, 0, 0]
    assert_eq!(slide_row_left(0x2202), 0x0023);
}

#[test]
fn slide_cases() {
    // [1, 1, 1, 1] -> [2, 2, 0, 0]
    assert_eq!(slide_row_left(0x1111), 0x0022);
    // [0, 0, 0, 5] -> [5, 0, 0, 0]
    assert_eq!(slide_row_left(0x5000), 0x0005);
    // [15, 15, 0, 0] -> [15, 0, 0, 0]: the highest rank stays put
    assert_eq!(slide_row_left(0x00ff), 0x000f);
    // [1, 2, 1, 2] does not move
    assert_eq!(slide_row_left(0x2121), 0x2121);
    assert_eq!(slide_row_left(0), 0);
}

#[test]
fn reverse_row_reverses_cells() {
    assert_eq!(reverse_row(0x4321), 0x1234);
    assert_eq!(reverse_row(reverse_row(0xabcd)), 0xabcd);
}

#[test]
fn row_scores() {
    assert_eq!(score_row(0), 0);
    // rank 1 tiles score nothing
    assert_eq!(score_row(0x1111), 0);
    // ranks 2 and 11: 1 * 4 + 10 * 2048
    assert_eq!(score_row(0x00b2), 4 + 10 * 2048);
}

#[test]
fn sum_powers_in_units() {
    assert_eq!(sum_power_of(0), 0);
    assert_eq!(sum_power_of(1), 1_000_000);
    assert_eq!(sum_power_of(4), 128_000_000);
    assert_eq!(sum_power_of(2), 11_313_708);
    assert_eq!(sum_power_of(15), 13_071_318_793);
}

#[test]
fn row_heuristics() {
    let powers = sum_power_table();
    // four empty cells
    assert_eq!(heur_row(0, &powers), 1_000_000 * (200_000 + 270 * 4));
    // [1, 0, 0, 0]: three empty cells, monotonic both ways at 0, sum 1
    assert_eq!(heur_row(0x0001, &powers), 1_000_000 * (200_000 + 270 * 3) - 11 * 1_000_000);
    // [1, 1, 0, 0]: two empty cells, one run of two equal tiles
    assert_eq!(heur_row(0x0011, &powers), 1_000_000 * (200_000 + 270 * 2 + 700 * 2) - 11 * 2_000_000);
    // [2, 1, 2, 0]: left 16 - 1, right 16 - 1 + 0, min 15... computed by hand below
    let left: i64 = (16 - 1) + (16 - 0);
    let right: i64 = 16 - 1;
    let sum: i64 = 2 * 11_313_708 + 1_000_000;
    assert_eq!(heur_row(0x0212, &powers), 1_000_000 * (200_000 + 270 - 47 * left.min(right)) - 11 * sum);
}

#[test]
fn insert_tile_at_nth_empty_cell() {
    // cells 0 and 2 are occupied: the empty cells are 1, 3, 4, ...
    let b: u64 = 0x0101;
    assert_eq!(insert_tile_at(b, 2, 0), 0x0121);
    assert_eq!(insert_tile_at(b, 1, 1), 0x1101);
    assert_eq!(insert_tile_at(b, 2, 2), 0x2_0101);
    assert_eq!(insert_tile_at(0, 1, 15), 0x1000_0000_0000_0000);
}

#[test]
fn tile_draws() {
    for x in 0..9 {
        assert_eq!(tile_for_draw(x), 1);
    }
    assert_eq!(tile_for_draw(9), 2);
    let mut ones = 0;
    for _ in 0..200 {
        let t = draw_tile();
        assert!(t == 1 || t == 2);
        if t == 1 {
            ones += 1;
        }
    }
    // nine draws in ten are rank 1
    assert!(ones > 100);
}

#[test]
fn random_insert_fills_one_empty_cell() {
    let b: u64 = 0x1111_1111_1111_1101;
    let r = insert_tile_rand(b, 2);
    assert_eq!(r, 0x1111_1111_1111_1121);
    for _ in 0..20 {
        let r = insert_tile_rand(0x0000_0000_0000_0001, 1);
        assert_eq!(count_empty(r), 14);
        assert_eq!(r & 0xf, 1);
    }
}

#[test]
fn initial_board_has_two_tiles() {
    for _ in 0..20 {
        let b = initial_board();
        assert_eq!(count_empty(b), 14);
        assert!(cells(b).iter().all(|&c| c <= 2));
    }
}
