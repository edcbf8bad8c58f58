use ai2048::search::{get_depth_limit, select_move, EvalState, PROB_ONE};
use ai2048::tables::{unpack_col, Tables, DOWN, LEFT, RIGHT, UP};

// Column 0 empty; no two equal tiles side by side: only LEFT moves anything.
const ONLY_LEFT: u64 = 0x1320_3210_1320_3210;
// Full checkerboard of ranks 1 and 2: nothing moves.
const STUCK: u64 = 0x1212_2121_1212_2121;

#[test]
fn moves_on_a_single_row() {
    let t = Tables::init_tables();
    // row 0 holds ranks [1, 1, 0, 0]
    let b: u64 = 0x0011;
    assert_eq!(t.execute_move(b, LEFT), 0x0002);
    assert_eq!(t.execute_move(b, RIGHT), 0x2000);
    // UP keeps the tiles in row 0, DOWN drops them to row 3
    assert_eq!(t.execute_move(b, UP), b);
    assert_eq!(t.execute_move(b, DOWN), 0x0011_0000_0000_0000);
}

#[test]
fn moves_on_a_column() {
    let t = Tables::init_tables();
    // column 0 holds ranks [1, 0, 1, 2] top to bottom
    let b: u64 = 0x0002_0001_0000_0001;
    assert_eq!(t.execute_move(b, UP), 0x0000_0000_0002_0002);
    assert_eq!(t.execute_move(b, DOWN), 0x0002_0002_0000_0000);
    assert_eq!(t.execute_move(b, LEFT), b);
    assert_eq!(t.execute_move(b, RIGHT), 0x2000_1000_0000_1000);
}

#[test]
fn unpack_col_spreads_a_row_down_column_zero() {
    assert_eq!(unpack_col(0x4321), 0x0004_0003_0002_0001);
    assert_eq!(unpack_col(0xf00f), 0x000f_0000_0000_000f);
}

#[test]
fn illegal_direction_leaves_board() {
    let t = Tables::init_tables();
    assert_eq!(t.execute_move(0x0011, 7), 0x0011);
}

#[test]
fn moving_twice_when_settled() {
    let t = Tables::init_tables();
    for &b in &[0x0123_0000_4560_0001u64, 0x1200_0030_0004_5000, ONLY_LEFT] {
        for d in 0..4 {
            let once = t.execute_move(b, d);
            assert_eq!(t.execute_move(once, d), once);
        }
    }
}

#[test]
fn second_move_can_merge_again() {
    let t = Tables::init_tables();
    // [1, 1, 2, 0] -> [2, 2, 0, 0] -> [3, 0, 0, 0]
    let once = t.execute_move(0x0211, LEFT);
    assert_eq!(once, 0x0022);
    assert_eq!(t.execute_move(once, LEFT), 0x0003);
}

#[test]
fn full_board_without_pairs_does_not_move() {
    let t = Tables::init_tables();
    for d in 0..4 {
        assert_eq!(t.execute_move(STUCK, d), STUCK);
    }
}

#[test]
fn board_scores() {
    let t = Tables::init_tables();
    assert_eq!(t.score_board(0), 0);
    // a rank 3 tile in row 0 and one in row 3
    assert_eq!(t.score_board(0x3000_0000_0000_0003), 32);
    // the empty board: eight rows of four empty cells
    assert_eq!(t.score_heur_board(0), 8 * 1_000_000 * (200_000 + 270 * 4));
}

#[test]
fn heuristic_counts_rows_and_columns() {
    let t = Tables::init_tables();
    // one rank 1 tile in the corner: its row and its column are [1, 0, 0, 0]
    let one = 1_000_000 * (200_000 + 270 * 3) - 11 * 1_000_000;
    let empty = 1_000_000 * (200_000 + 270 * 4);
    assert_eq!(t.score_heur_board(1), 2 * one + 6 * empty);
}

#[test]
fn only_legal_move_is_chosen() {
    let t = Tables::init_tables();
    assert_eq!(t.find_best_move(ONLY_LEFT), LEFT);
}

#[test]
fn no_legal_move_gives_sentinel() {
    let t = Tables::init_tables();
    assert!(!t.has_legal_move(STUCK));
    assert_eq!(t.find_best_move(STUCK), -1);
}

#[test]
fn best_move_is_legal() {
    let t = Tables::init_tables();
    // only the bottom-right cell is empty: RIGHT and DOWN move
    let b: u64 = 0x0654_6543_5432_4321;
    let m = t.find_best_move(b);
    assert!(m == RIGHT || m == DOWN);
    assert_ne!(t.execute_move(b, m), b);
}

#[test]
fn toplevel_scores() {
    let t = Tables::init_tables();
    assert_eq!(t.score_toplevel_move(ONLY_LEFT, RIGHT).value, 0);
    assert_eq!(t.score_toplevel_move(ONLY_LEFT, UP).value, 0);
    assert!(t.score_toplevel_move(ONLY_LEFT, LEFT).value > 0);
}

#[test]
fn select_picks_first_greatest_legal() {
    assert_eq!(select_move(&vec![5, 9, 9, 1], &vec![true, true, true, true]), 1);
    assert_eq!(select_move(&vec![5, 9, 9, 1], &vec![true, false, true, true]), 2);
    assert_eq!(select_move(&vec![0, 0, 0, 0], &vec![false, false, false, false]), -1);
    assert_eq!(select_move(&vec![0, -7, 0, 0], &vec![false, true, false, false]), 1);
    assert_eq!(select_move(&vec![3, 3, 3, 3], &vec![true, true, true, true]), 0);
}

#[test]
fn depth_limit_small_tiles() {
    assert_eq!(get_depth_limit(0), 3);
    // ranks 1 through 11, all distinct: still the minimum
    assert_eq!(get_depth_limit(0x0000_0ba9_8765_4321), 3);
}

#[test]
fn depth_limit_large_tiles() {
    // a 4096 and a 2: two ranks, limit stays at 3
    assert_eq!(get_depth_limit(0x0000_0000_0000_00c1), 3);
    // ranks 12, 11, 10, 9, 8, 7: six ranks, six less two
    assert_eq!(get_depth_limit(0x0000_0000_00cb_a987), 4);
    // ranks 1 through 13: capped at 6
    assert_eq!(get_depth_limit(0x0000_dcba_9876_5432 | 1 << 52), 6);
}

#[test]
fn cache_reuse_rule() {
    let mut s = EvalState::new(3);
    assert_eq!(s.cache_lookup(42, 2), None);
    s.cache_record(42, 2, 1234);
    assert_eq!(s.cache_lookup(42, 2), Some(1234));
    assert_eq!(s.cache_lookup(42, 5), Some(1234));
    assert_eq!(s.cache_lookup(42, 1), None);
    // a second record keeps the first entry
    s.cache_record(42, 0, 99);
    assert_eq!(s.cache_lookup(42, 2), Some(1234));
    assert_eq!(s.cache_size(), 1);
}

#[test]
fn chance_node_at_limit_is_static() {
    let t = Tables::init_tables();
    let mut s = EvalState::new(0);
    assert_eq!(t.score_tilechoose_node(&mut s, 1, 0, PROB_ONE), t.score_heur_board(1));
    let mut s = EvalState::new(3);
    assert_eq!(t.score_tilechoose_node(&mut s, 1, 0, 10), t.score_heur_board(1));
}

#[test]
fn chance_node_uses_cache_entry() {
    let t = Tables::init_tables();
    let mut s = EvalState::new(3);
    s.cache_record(1, 0, 777);
    assert_eq!(t.score_tilechoose_node(&mut s, 1, 1, PROB_ONE), 777);
}

#[test]
fn move_node_without_moves_is_zero() {
    let t = Tables::init_tables();
    let mut s = EvalState::new(3);
    assert_eq!(t.score_move_node(&mut s, STUCK, 0, PROB_ONE), 0);
}

#[test]
fn play_move_adds_a_tile() {
    let t = Tables::init_tables();
    assert!(t.play_move(STUCK, LEFT).is_none());
    let (next, tile) = t.play_move(0x0011, LEFT).unwrap();
    assert!(tile == 1 || tile == 2);
    assert_eq!(next & 0xf, 2);
    assert_eq!((0..16).filter(|i| (next >> (4 * i)) & 0xf != 0).count(), 2);
}
