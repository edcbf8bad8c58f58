//! The static evaluation of a row, in fixed point: one point is `SCALE`
//! units, so every weight and power stays an exact integer; `rank^3.5` is the
//! integer square root of `rank^7`, scaled, rounded down.
use vstd::prelude::*;
use crate::line::line;

verus! {

/// Units per point of the heuristic; the heuristic is kept in these units.
pub const SCALE: i64 = 1_000_000;
/// Baseline that every row starts from.
pub const LOST_PENALTY: i64 = 200_000;
/// Points for each empty cell.
pub const EMPTY_WEIGHT: i64 = 270;
/// Points for each tile that could merge with an equal neighbour.
pub const MERGES_WEIGHT: i64 = 700;
/// Points taken off per unit of the smaller of the two monotonicity sums.
pub const MONOTONICITY_WEIGHT: i64 = 47;
/// Points taken off per unit of the sum of rank^3.5.
pub const SUM_WEIGHT: i64 = 11;

/// `rank^4`, the power the monotonicity terms use.
pub open spec fn pow4(x: int) -> int {
    x * x * x * x
}

/// `x` is the integer square root of `n`.
pub open spec fn is_root(x: int, n: int) -> bool {
    0 <= x && x * x <= n && n < (x + 1) * (x + 1)
}

/// `rank^7 * SCALE^2`: its square root is `rank^3.5` in units.
pub open spec fn sum_power_square(r: int) -> int {
    r * r * r * r * r * r * r * (SCALE * SCALE)
}

/// `rank^3.5` in units, rounded down.
pub open spec fn sum_power(r: int) -> int {
    choose|x: int| is_root(x, sum_power_square(r))
}

proof fn lemma_root_unique(x: int, y: int, n: int)
    requires
        is_root(x, n),
        is_root(y, n),
    ensures
        x == y,
{
    if x < y {
        assert((x + 1) * (x + 1) <= y * y) by (nonlinear_arith)
            requires
                0 <= x + 1 <= y,
        ;
    }
    if y < x {
        assert((y + 1) * (y + 1) <= x * x) by (nonlinear_arith)
            requires
                0 <= y + 1 <= x,
        ;
    }
}

/// The largest root of a rank's power is below 13072 points.
pub proof fn lemma_sum_power_bound(r: int, x: int)
    requires
        0 <= r <= 15,
        is_root(x, sum_power_square(r)),
    ensures
        x <= 13_072_000_000,
{
    assert(r * r * r * r * r * r * r <= 170_859_375) by (nonlinear_arith)
        requires
            0 <= r <= 15,
    ;
    let p7 = r * r * r * r * r * r * r;
    assert(sum_power_square(r) == p7 * 1_000_000_000_000);
    assert(p7 * 1_000_000_000_000 <= 170_859_375 * 1_000_000_000_000) by (nonlinear_arith)
        requires
            p7 <= 170_859_375,
    ;
    if x > 13_072_000_000 {
        assert(x * x > (13_072_000_000) * (13_072_000_000)) by (nonlinear_arith)
            requires
                x > 13_072_000_000,
        ;
        assert((13_072_000_000) * (13_072_000_000) == 170_877_184_000_000_000_000int);
        assert(x * x <= sum_power_square(r));
        assert(false);
    }
}

/// `rank^3.5` in units, rounded down, for a rank of a cell.
pub fn sum_power_of(rank: u64) -> (x: i64)
    requires
        rank <= 15,
    ensures
        x == sum_power(rank as int),
        0 <= x <= 13_072_000_000,
{
    let r = rank as u128;
    assert(r * r <= 225) by (nonlinear_arith)
        requires
            r <= 15,
    ;
    let r2 = r * r;
    assert(r2 * r2 <= 50625) by (nonlinear_arith)
        requires
            r2 <= 225,
    ;
    let r4 = r2 * r2;
    assert(r4 * r2 <= 11_390_625) by (nonlinear_arith)
        requires
            r4 <= 50625,
            r2 <= 225,
    ;
    assert(r4 * r2 * r <= 170_859_375) by (nonlinear_arith)
        requires
            r4 <= 50625,
            r2 <= 225,
            r <= 15,
    ;
    let r7 = r4 * r2 * r;
    let n: u128 = r7 * 1_000_000_000_000;
    assert(n as int == sum_power_square(rank as int)) by (nonlinear_arith)
        requires
            r2 == r * r,
            r4 == r2 * r2,
            r7 == r4 * r2 * r,
            n == r7 * 1_000_000_000_000,
            r == rank,
    ;
    let mut lo: u128 = 0;
    let mut hi: u128 = 0x8_0000_0000;
    assert(hi * hi > 170_859_375_000_000_000_000);
    while hi - lo > 1
        invariant
            lo < hi <= 0x8_0000_0000,
            lo * lo <= n,
            n < hi * hi,
            n <= 170_859_375_000_000_000_000,
        decreases hi - lo,
    {
        let mid = lo + (hi - lo) / 2;
        assert(mid * mid <= 0x8_0000_0000 * 0x8_0000_0000) by (nonlinear_arith)
            requires
                mid <= 0x8_0000_0000,
        ;
        if mid * mid <= n {
            lo = mid;
        } else {
            hi = mid;
        }
    }
    assert(hi == lo + 1);
    proof {
        assert(is_root(lo as int, sum_power_square(rank as int)));
        let y = sum_power(rank as int);
        lemma_root_unique(lo as int, y, sum_power_square(rank as int));
        lemma_sum_power_bound(rank as int, lo as int);
    }
    lo as i64
}

/// A bound on the heuristic of one row, either sign.
pub const ROW_BOUND: i64 = 8_000_000_000_000;

/// Empty cells of a line of four.
pub open spec fn empty_count(s: Seq<int>) -> int {
    (if s[0] == 0 { 1int } else { 0 }) + (if s[1] == 0 { 1int } else { 0 })
        + (if s[2] == 0 { 1int } else { 0 }) + (if s[3] == 0 { 1int } else { 0 })
}

/// The scan that counts merge potential, as (previous tile, length of the
/// current run of equal tiles less one, tiles in finished runs); empty cells
/// are skipped and do not break a run.
pub open spec fn scan_step(st: (int, int, int), x: int) -> (int, int, int) {
    if x == 0 {
        st
    } else if st.0 == x {
        (x, st.1 + 1, st.2)
    } else if st.1 > 0 {
        (x, 0, st.2 + 1 + st.1)
    } else {
        (x, 0, st.2)
    }
}

/// Tiles of a line of four that stand in a run of two or more equal tiles.
pub open spec fn merge_count(s: Seq<int>) -> int {
    let st = scan_step(scan_step(scan_step(scan_step((0, 0, 0), s[0]), s[1]), s[2]), s[3]);
    if st.1 > 0 {
        st.2 + 1 + st.1
    } else {
        st.2
    }
}

/// Monotonicity toward the left for neighbours `a`, `b`.
pub open spec fn mono_left_term(a: int, b: int) -> int {
    if a > b {
        pow4(a) - pow4(b)
    } else {
        0
    }
}

/// Monotonicity toward the right for neighbours `a`, `b`.
pub open spec fn mono_right_term(a: int, b: int) -> int {
    if a > b {
        0
    } else {
        pow4(b) - pow4(a)
    }
}

pub open spec fn mono_left(s: Seq<int>) -> int {
    mono_left_term(s[0], s[1]) + mono_left_term(s[1], s[2]) + mono_left_term(s[2], s[3])
}

pub open spec fn mono_right(s: Seq<int>) -> int {
    mono_right_term(s[0], s[1]) + mono_right_term(s[1], s[2]) + mono_right_term(s[2], s[3])
}

pub open spec fn power_sum(s: Seq<int>) -> int {
    sum_power(s[0]) + sum_power(s[1]) + sum_power(s[2]) + sum_power(s[3])
}

pub open spec fn min_int(a: int, b: int) -> int {
    if a < b {
        a
    } else {
        b
    }
}

/// The heuristic of a line of four, in units:
/// `LOST_PENALTY + EMPTY_WEIGHT * empty + MERGES_WEIGHT * merges
///  - MONOTONICITY_WEIGHT * min(left, right) - SUM_WEIGHT * sum(rank^3.5)`.
pub open spec fn heur_line(s: Seq<int>) -> int {
    SCALE * (LOST_PENALTY + EMPTY_WEIGHT * empty_count(s) + MERGES_WEIGHT * merge_count(s)
        - MONOTONICITY_WEIGHT * min_int(mono_left(s), mono_right(s))) - SUM_WEIGHT * power_sum(s)
}

/// The heuristic of a row, in units.
pub open spec fn heur_row_spec(r: u16) -> int {
    heur_line(line(r))
}

/// `powers` holds `rank^3.5` in units for each of the sixteen ranks.
pub open spec fn powers_ok(powers: Seq<i64>) -> bool {
    &&& powers.len() == 16
    &&& forall|r: int| 0 <= r < 16 ==> #[trigger] powers[r] == sum_power(r)
    &&& forall|r: int| 0 <= r < 16 ==> 0 <= #[trigger] powers[r] <= 13_072_000_000
}

/// `rank^3.5` in units for each rank, indexed by rank.
pub fn sum_power_table() -> (powers: Vec<i64>)
    ensures
        powers_ok(powers@),
{
    let mut powers: Vec<i64> = Vec::new();
    let mut r: u64 = 0;
    while r < 16
        invariant
            r <= 16,
            powers.len() == r,
            forall|k: int| 0 <= k < r ==> #[trigger] powers@[k] == sum_power(k),
            forall|k: int| 0 <= k < r ==> 0 <= #[trigger] powers@[k] <= 13_072_000_000,
        decreases 16 - r,
    {
        let x = sum_power_of(r);
        powers.push(x);
        r = r + 1;
    }
    powers
}

spec fn scan_inv(st: (int, int, int), k: int) -> bool {
    &&& 0 <= st.0 <= 15
    &&& st.1 >= 0
    &&& st.2 >= 0
    &&& st.2 + st.1 + (if st.0 != 0 { 1int } else { 0 }) <= k
    &&& (st.1 > 0 ==> st.0 != 0)
}

proof fn lemma_scan_step(st: (int, int, int), x: int, k: int)
    requires
        scan_inv(st, k),
        0 <= x <= 15,
    ensures
        scan_inv(scan_step(st, x), k + 1),
{
}

proof fn lemma_pow4(x: int)
    requires
        0 <= x <= 15,
    ensures
        0 <= pow4(x) <= 50625,
{
    assert(0 <= x * x * x * x <= 50625) by (nonlinear_arith)
        requires
            0 <= x <= 15,
    ;
}

fn pow4_of(x: u64) -> (p: i64)
    requires
        x <= 15,
    ensures
        p == pow4(x as int),
{
    proof {
        lemma_pow4(x as int);
    }
    assert(x * x <= 225) by (nonlinear_arith)
        requires
            x <= 15,
    ;
    assert(x * x * x <= 3375) by (nonlinear_arith)
        requires
            x <= 15,
            x * x <= 225,
    ;
    (x * x * x * x) as i64
}

fn mono_terms(a: u64, b: u64) -> (r: (i64, i64))
    requires
        a <= 15,
        b <= 15,
    ensures
        r.0 == mono_left_term(a as int, b as int),
        r.1 == mono_right_term(a as int, b as int),
        -50625 <= r.0 <= 50625,
        -50625 <= r.1 <= 50625,
{
    proof {
        lemma_pow4(a as int);
        lemma_pow4(b as int);
    }
    let pa = pow4_of(a);
    let pb = pow4_of(b);
    if a > b {
        (pa - pb, 0)
    } else {
        (0, pb - pa)
    }
}

/// The heuristic of a row, in units, given `rank^3.5` for each rank.
pub fn heur_row(row: u16, powers: &Vec<i64>) -> (v: i64)
    requires
        powers_ok(powers@),
    ensures
        v == heur_row_spec(row),
        -ROW_BOUND <= v <= ROW_BOUND,
{
    let ghost s = line(row);
    let c0 = ((row as u64) & 0xf);
    let c1 = ((row as u64) >> 4) & 0xf;
    let c2 = ((row as u64) >> 8) & 0xf;
    let c3 = ((row as u64) >> 12) & 0xf;
    assert(c0 == crate::board::nib(row, 0) && c1 == crate::board::nib(row, 1)
        && c2 == crate::board::nib(row, 2) && c3 == crate::board::nib(row, 3)) by (bit_vector)
        requires
            c0 == ((row as u64) & 0xf),
            c1 == ((row as u64) >> 4) & 0xf,
            c2 == ((row as u64) >> 8) & 0xf,
            c3 == ((row as u64) >> 12) & 0xf,
    ;
    assert(c0 <= 15 && c1 <= 15 && c2 <= 15 && c3 <= 15) by (bit_vector)
        requires
            c0 == ((row as u64) & 0xf),
            c1 == ((row as u64) >> 4) & 0xf,
            c2 == ((row as u64) >> 8) & 0xf,
            c3 == ((row as u64) >> 12) & 0xf,
    ;
    assert(s[0] == c0 && s[1] == c1 && s[2] == c2 && s[3] == c3);
    let cells: [u64; 4] = [c0, c1, c2, c3];

    let mut empty: i64 = 0;
    let mut prev: u64 = 0;
    let mut counter: i64 = 0;
    let mut merges: i64 = 0;
    let mut sum: i64 = 0;
    let mut i: usize = 0;
    let ghost mut st: (int, int, int) = (0, 0, 0);
    while i < 4
        invariant
            i <= 4,
            cells@ == seq![c0, c1, c2, c3],
            s == seq![c0 as int, c1 as int, c2 as int, c3 as int],
            powers_ok(powers@),
            c0 <= 15 && c1 <= 15 && c2 <= 15 && c3 <= 15,
            st == (prev as int, counter as int, merges as int),
            scan_inv(st, i as int),
            st == (if i == 0 { (0, 0, 0) } else if i == 1 { scan_step((0, 0, 0), s[0]) }
                else if i == 2 { scan_step(scan_step((0, 0, 0), s[0]), s[1]) }
                else if i == 3 { scan_step(scan_step(scan_step((0, 0, 0), s[0]), s[1]), s[2]) }
                else { scan_step(scan_step(scan_step(scan_step((0, 0, 0), s[0]), s[1]), s[2]), s[3]) }),
            empty == (if i > 0 && s[0] == 0 { 1int } else { 0 }) + (if i > 1 && s[1] == 0 { 1int } else { 0 })
                + (if i > 2 && s[2] == 0 { 1int } else { 0 }) + (if i > 3 && s[3] == 0 { 1int } else { 0 }),
            sum == (if i > 0 { sum_power(s[0]) } else { 0 }) + (if i > 1 { sum_power(s[1]) } else { 0 })
                + (if i > 2 { sum_power(s[2]) } else { 0 }) + (if i > 3 { sum_power(s[3]) } else { 0 }),
            0 <= sum <= 13_072_000_000 * i,
        decreases 4 - i,
    {
        let rank = cells[i];
        assert(rank == s[i as int]);
        proof {
            lemma_scan_step(st, rank as int, i as int);
        }
        let x = powers[rank as usize];
        sum = sum + x;
        if rank == 0 {
            empty = empty + 1;
        } else {
            if prev == rank {
                counter = counter + 1;
            } else if counter > 0 {
                merges = merges + 1 + counter;
                counter = 0;
            }
            prev = rank;
        }
        proof {
            st = scan_step(st, rank as int);
        }
        i = i + 1;
    }
    if counter > 0 {
        merges = merges + 1 + counter;
    }
    assert(empty == empty_count(s));
    assert(merges == merge_count(s));
    assert(0 <= merges <= 4);
    let (l0, r0) = mono_terms(c0, c1);
    let (l1, r1) = mono_terms(c1, c2);
    let (l2, r2) = mono_terms(c2, c3);
    let left = l0 + l1 + l2;
    let right = r0 + r1 + r2;
    let m = if left < right { left } else { right };
    SCALE * (LOST_PENALTY + EMPTY_WEIGHT * empty + MERGES_WEIGHT * merges - MONOTONICITY_WEIGHT * m)
        - SUM_WEIGHT * sum
}

} // verus!
