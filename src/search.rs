//! Expectimax search: move nodes take the best legal move, chance nodes
//! average over every placement of a new tile; an adaptive depth limit, a
//! probability cutoff and a per-search cache bound the work.
use vstd::prelude::*;
use std::collections::HashMap;
use crate::board::{cell, count_empty, count_empty_spec};
use crate::tables::{Tables, heur_board_spec, move_spec, BOARD_BOUND};

verus! {

broadcast use vstd::std_specs::hash::group_hash_axioms;

/// Probability 1, in units of 10^-12.
pub const PROB_ONE: u64 = 1_000_000_000_000;
/// Below this probability (10^-4) a chance node is scored statically.
pub const PROB_THRESH: u64 = 100_000_000;
/// Chance nodes at this depth or deeper are neither cached nor looked up.
pub const CACHE_DEPTH_LIMIT: u32 = 15;
/// Tie-break added to the value of every legal top-level move: one unit.
pub const LEGAL_MOVE_BONUS: i64 = 1;

/// A cached chance-node value and the depth at which it was computed.
#[derive(Clone, Copy)]
pub struct CacheEntry {
    pub depth: u32,
    pub heuristic: i64,
}

/// The state of one top-level search: its cache, its depth limit, and
/// counters kept for diagnostics only.
pub struct EvalState {
    pub trans_table: HashMap<u64, CacheEntry>,
    pub depth_limit: u32,
    pub maxdepth: u32,
    pub nomoves: u64,
    pub tablehits: u64,
    pub cachehits: u64,
    pub moves_evaled: u64,
}

/// What a lookup of `board` at `depth` finds: an entry recorded at a depth no
/// greater than `depth`, and nothing else. An entry recorded nearer the root
/// had at least as much search below it, so it stands in for a node with less
/// headroom; an entry recorded deeper is never used nearer the root. The
/// comparison (recorded depth <= lookup depth) is deliberate: do not invert it.
pub open spec fn lookup_spec(cache: Map<u64, CacheEntry>, board: u64, depth: u32) -> Option<i64> {
    if cache.contains_key(board) && cache[board].depth <= depth {
        Some(cache[board].heuristic)
    } else {
        None
    }
}

/// The cache after recording `value` for `board` at `depth`: a board already
/// present keeps its first entry.
pub open spec fn record_spec(cache: Map<u64, CacheEntry>, board: u64, depth: u32, value: i64) -> Map<u64, CacheEntry> {
    if cache.contains_key(board) {
        cache
    } else {
        cache.insert(board, CacheEntry { depth, heuristic: value })
    }
}

/// `later` keeps every entry of `earlier`.
pub open spec fn cache_grows(earlier: Map<u64, CacheEntry>, later: Map<u64, CacheEntry>) -> bool {
    forall|k: u64| #[trigger] earlier.contains_key(k) ==> later.contains_key(k) && later[k] == earlier[k]
}

proof fn lemma_grows_trans(a: Map<u64, CacheEntry>, b: Map<u64, CacheEntry>, c: Map<u64, CacheEntry>)
    requires
        cache_grows(a, b),
        cache_grows(b, c),
    ensures
        cache_grows(a, c),
{
    assert forall|k: u64| #[trigger] a.contains_key(k) implies c.contains_key(k) && c[k] == a[k] by {
        assert(b.contains_key(k) && b[k] == a[k]);
        assert(c.contains_key(k) && c[k] == b[k]);
    }
}

fn tally(c: u64) -> (r: u64)
    ensures
        r == if c < u64::MAX { (c + 1) as u64 } else { c },
{
    if c < u64::MAX {
        c + 1
    } else {
        c
    }
}

impl EvalState {
    /// An empty cache, and every counter at zero.
    pub fn new(depth_limit: u32) -> (s: EvalState)
        ensures
            s.wf(),
            s.trans_table@ == Map::<u64, CacheEntry>::empty(),
            s.depth_limit == depth_limit,
    {
        EvalState {
            trans_table: HashMap::new(),
            depth_limit,
            maxdepth: 0,
            nomoves: 0,
            tablehits: 0,
            cachehits: 0,
            moves_evaled: 0,
        }
    }

    /// Every cached value is that of an expanded chance node: an average of
    /// move-node values, so between zero and the heuristic's bound.
    pub open spec fn wf(&self) -> bool {
        forall|k: u64| #[trigger] self.trans_table@.contains_key(k) ==> 0
            <= self.trans_table@[k].heuristic <= BOARD_BOUND
    }

    /// The cached value for `board`, if one was recorded at a depth no greater
    /// than `depth`.
    pub fn cache_lookup(&self, board: u64, depth: u32) -> (r: Option<i64>)
        ensures
            r == lookup_spec(self.trans_table@, board, depth),
    {
        match self.trans_table.get(&board) {
            Some(e) => {
                if e.depth <= depth {
                    Some(e.heuristic)
                } else {
                    None
                }
            },
            None => None,
        }
    }

    /// Records `value` for `board` at `depth`, unless `board` has an entry.
    pub fn cache_record(&mut self, board: u64, depth: u32, value: i64)
        requires
            old(self).wf(),
            0 <= value <= BOARD_BOUND,
        ensures
            final(self).wf(),
            final(self).trans_table@ == record_spec(old(self).trans_table@, board, depth, value),
            final(self).depth_limit == old(self).depth_limit,
    {
        if !self.trans_table.contains_key(&board) {
            self.trans_table.insert(board, CacheEntry { depth, heuristic: value });
        }
    }

    /// Number of cached boards.
    pub fn cache_size(&self) -> usize {
        self.trans_table.len()
    }
}

/// Value of a chance node at `depth` reached with probability `prob`, and the
/// cache after it, under depth limit `limit`, starting from `cache`.
pub open spec fn chance_spec(board: u64, depth: u32, prob: u64, limit: u32, cache: Map<u64, CacheEntry>) -> (int, Map<u64, CacheEntry>)
    decreases limit - depth, 2nat, 0int,
{
    if prob < PROB_THRESH || depth >= limit {
        (heur_board_spec(board), cache)
    } else if depth < CACHE_DEPTH_LIMIT && lookup_spec(cache, board, depth) is Some {
        (lookup_spec(cache, board, depth)->0 as int, cache)
    } else if count_empty_spec(board) == 0 {
        (heur_board_spec(board), cache)
    } else {
        let n = count_empty_spec(board);
        let folded = chance_fold(board, 0, depth, (prob / (n as u64)) as u64, limit, cache, 0);
        let res = folded.0 / (10 * n);
        (res, if depth < CACHE_DEPTH_LIMIT { record_spec(folded.1, board, depth, res as i64) } else { folded.1 })
    }
}

/// The placements into the empty cells `i..16`, each a rank-1 tile weighted 9
/// and a rank-2 tile weighted 1, added to `acc`; and the cache after them.
pub open spec fn chance_fold(board: u64, i: int, depth: u32, p: u64, limit: u32, cache: Map<u64, CacheEntry>, acc: int) -> (int, Map<u64, CacheEntry>)
    decreases limit - depth, 1nat, 16 - i,
{
    if i >= 16 || i < 0 || depth >= limit {
        (acc, cache)
    } else if cell(board, i) == 0 {
        let one = move_node_spec(board | (1u64 << ((4 * i) as u64)), depth, ((p / 10) * 9) as u64, limit, cache);
        let two = move_node_spec(board | (2u64 << ((4 * i) as u64)), depth, (p / 10) as u64, limit, one.1);
        chance_fold(board, i + 1, depth, p, limit, two.1, acc + 9 * one.0 + two.0)
    } else {
        chance_fold(board, i + 1, depth, p, limit, cache, acc)
    }
}

/// Value of a move node at `depth`, and the cache after it.
pub open spec fn move_node_spec(board: u64, depth: u32, prob: u64, limit: u32, cache: Map<u64, CacheEntry>) -> (int, Map<u64, CacheEntry>)
    decreases limit - depth, 0nat, 5int,
{
    move_fold(board, 0, depth, prob, limit, cache, 0)
}

/// The best of `best` and the values after the legal moves among `d..4`,
/// and the cache after them.
pub open spec fn move_fold(board: u64, d: int, depth: u32, prob: u64, limit: u32, cache: Map<u64, CacheEntry>, best: int) -> (int, Map<u64, CacheEntry>)
    decreases limit - depth, 0nat, 4 - d,
{
    if d >= 4 || d < 0 || depth >= limit {
        (best, cache)
    } else if move_spec(board, d as i32) != board {
        let after = chance_spec(move_spec(board, d as i32), (depth + 1) as u32, prob, limit, cache);
        move_fold(board, d + 1, depth, prob, limit, after.1, if best < after.0 { after.0 } else { best })
    } else {
        move_fold(board, d + 1, depth, prob, limit, cache, best)
    }
}

/// The value of the top-level move `d` from `board`: 0 when it changes
/// nothing, else the chance node after it, searched with a fresh cache and
/// the depth limit of `board`, plus one unit.
pub open spec fn toplevel_spec(board: u64, d: i32) -> int {
    if move_spec(board, d) == board {
        0
    } else {
        chance_spec(move_spec(board, d), 0, PROB_ONE, depth_limit_spec(board) as u32, Map::empty()).0
            + LEGAL_MOVE_BONUS
    }
}

impl Tables {
    /// Value of a chance node: the expected value over every placement of a
    /// new tile (rank 1 with weight 9/10, rank 2 with weight 1/10) in every
    /// empty cell. Scored statically below the probability cutoff, at the
    /// depth limit, or on a board without an empty cell; taken from the cache
    /// when an entry recorded at this depth or nearer the root exists.
    pub fn score_tilechoose_node(&self, state: &mut EvalState, board: u64, depth: u32, prob: u64) -> (r: i64)
        requires
            self.wf(),
            old(state).wf(),
            depth <= old(state).depth_limit,
            prob <= PROB_ONE,
        ensures
            (r as int, final(state).trans_table@) == chance_spec(board, depth, prob, old(state).depth_limit,
                old(state).trans_table@),
            final(state).wf(),
            final(state).depth_limit == old(state).depth_limit,
            cache_grows(old(state).trans_table@, final(state).trans_table@),
            -BOARD_BOUND <= r <= BOARD_BOUND,
            prob < PROB_THRESH || depth >= old(state).depth_limit ==> r == heur_board_spec(board),
            !(prob < PROB_THRESH || depth >= old(state).depth_limit) && count_empty_spec(board) > 0 ==> r >= 0,
            !(prob < PROB_THRESH || depth >= old(state).depth_limit) && depth < CACHE_DEPTH_LIMIT
                && lookup_spec(old(state).trans_table@, board, depth) is Some
                ==> Some(r) == lookup_spec(old(state).trans_table@, board, depth),
        decreases old(state).depth_limit - depth, 1nat,
    {
        if prob < PROB_THRESH || depth >= state.depth_limit {
            if depth > state.maxdepth {
                state.maxdepth = depth;
            }
            state.tablehits = tally(state.tablehits);
            return self.score_heur_board(board);
        }
        if depth < CACHE_DEPTH_LIMIT {
            match state.cache_lookup(board, depth) {
                Some(v) => {
                    state.cachehits = tally(state.cachehits);
                    return v;
                },
                None => {},
            }
        }
        let num_open = count_empty(board);
        if num_open == 0 {
            return self.score_heur_board(board);
        }
        let p = prob / (num_open as u64);
        let ghost s0 = state.trans_table@;
        let mut sum: i64 = 0;
        let mut placed: u32 = 0;
        let mut i: u64 = 0;
        while i < 16
            invariant
                self.wf(),
                state.wf(),
                state.depth_limit == old(state).depth_limit,
                depth < state.depth_limit,
                cache_grows(s0, state.trans_table@),
                s0 == old(state).trans_table@,
                chance_fold(board, 0, depth, p, state.depth_limit, s0, 0) == chance_fold(board, i as int, depth, p,
                    state.depth_limit, state.trans_table@, sum as int),
                i <= 16,
                p <= PROB_ONE,
                placed == crate::board::empty_below(board, i as int),
                placed <= i,
                0 <= sum <= 10 * placed * BOARD_BOUND,
            decreases 16 - i,
        {
            proof {
                crate::board::lemma_counts_below(board, i as int);
            }
            let c = (board >> (4 * i)) & 0xf;
            proof {
                crate::board::lemma_cell_read(board, i);
            }
            if c == 0 {
                let ghost before = state.trans_table@;
                let v1 = self.score_move_node(state, board | (1u64 << (4 * i)), depth, p / 10 * 9);
                let ghost mid = state.trans_table@;
                let v2 = self.score_move_node(state, board | (2u64 << (4 * i)), depth, p / 10);
                proof {
                    lemma_grows_trans(s0, before, mid);
                    lemma_grows_trans(s0, mid, state.trans_table@);
                }
                sum = sum + 9 * v1 + v2;
                placed = placed + 1;
            }
            i = i + 1;
        }
        assert(placed == num_open);
        let d = 10 * (num_open as i64);
        let res = sum / d;
        assert(res <= BOARD_BOUND) by (nonlinear_arith)
            requires
                0 <= sum <= 10 * placed * BOARD_BOUND,
                d == 10 * placed,
                d > 0,
                res == sum / d,
        ;
        if depth < CACHE_DEPTH_LIMIT {
            state.cache_record(board, depth, res);
        }
        res
    }

    /// Value of a move node: the best value over the moves that change the
    /// board, or 0 when none does.
    pub fn score_move_node(&self, state: &mut EvalState, board: u64, depth: u32, prob: u64) -> (r: i64)
        requires
            self.wf(),
            old(state).wf(),
            depth < old(state).depth_limit,
            prob <= PROB_ONE,
        ensures
            (r as int, final(state).trans_table@) == move_node_spec(board, depth, prob, old(state).depth_limit,
                old(state).trans_table@),
            final(state).wf(),
            final(state).depth_limit == old(state).depth_limit,
            cache_grows(old(state).trans_table@, final(state).trans_table@),
            0 <= r <= BOARD_BOUND,
            (forall|d: i32| 0 <= d < 4 ==> move_spec(board, d) == board) ==> r == 0,
        decreases old(state).depth_limit - depth, 0nat,
    {
        let mut best: i64 = 0;
        let mut d: i32 = 0;
        while d < 4
            invariant
                self.wf(),
                state.wf(),
                state.depth_limit == old(state).depth_limit,
                depth < state.depth_limit,
                cache_grows(old(state).trans_table@, state.trans_table@),
                0 <= d <= 4,
                prob <= PROB_ONE,
                0 <= best <= BOARD_BOUND,
                move_node_spec(board, depth, prob, state.depth_limit, old(state).trans_table@) == move_fold(board,
                    d as int, depth, prob, state.depth_limit, state.trans_table@, best as int),
                (forall|e: i32| 0 <= e < d ==> move_spec(board, e) == board) ==> best == 0,
            decreases 4 - d,
        {
            let newboard = self.execute_move(board, d);
            state.moves_evaled = tally(state.moves_evaled);
            if board != newboard {
                let ghost before = state.trans_table@;
                let v = self.score_tilechoose_node(state, newboard, depth + 1, prob);
                proof {
                    lemma_grows_trans(old(state).trans_table@, before, state.trans_table@);
                }
                if best < v {
                    best = v;
                }
            } else {
                state.nomoves = tally(state.nomoves);
            }
            d = d + 1;
        }
        best
    }
}

/// The depth limit of boards whose tiles are all small.
pub const MIN_DEPTH: u32 = 3;
/// The largest depth limit.
pub const MAX_DEPTH: u32 = 6;
/// The highest rank (2048) for which the depth limit stays at its minimum.
pub const SMALL_RANK: u64 = 11;

/// Some cell of the board holds rank `r`.
pub open spec fn has_rank(b: u64, r: int) -> bool {
    exists|i: int| 0 <= i < 16 && #[trigger] cell(b, i) == r
}

/// Number of distinct tile ranks among ranks `1..n` present on the board.
pub open spec fn ranks_below(b: u64, n: int) -> int
    decreases n,
{
    if n <= 1 {
        0
    } else {
        ranks_below(b, n - 1) + if has_rank(b, n - 1) { 1int } else { 0 }
    }
}

/// No tile is above 2048.
pub open spec fn small_tiles(b: u64) -> bool {
    forall|i: int| 0 <= i < 16 ==> #[trigger] cell(b, i) <= SMALL_RANK
}

/// The depth limit of a search from `b`: the minimum while every tile is
/// 2048 or less; else the number of distinct tile ranks less two, kept
/// between the minimum and the maximum.
pub open spec fn depth_limit_spec(b: u64) -> int {
    if small_tiles(b) {
        MIN_DEPTH as int
    } else {
        let c = ranks_below(b, 16) - 2;
        if c < MIN_DEPTH {
            MIN_DEPTH as int
        } else if c > MAX_DEPTH {
            MAX_DEPTH as int
        } else {
            c
        }
    }
}

fn has_rank_exec(b: u64, r: u64) -> (found: bool)
    ensures
        found == has_rank(b, r as int),
{
    let mut i: u64 = 0;
    while i < 16
        invariant
            i <= 16,
            forall|j: int| 0 <= j < i ==> #[trigger] cell(b, j) != r,
        decreases 16 - i,
    {
        proof {
            crate::board::lemma_cell_read(b, i);
        }
        if (b >> (4 * i)) & 0xf == r {
            return true;
        }
        i = i + 1;
    }
    false
}

/// The depth limit of a search from `board`, from the tile ranks on it.
pub fn get_depth_limit(board: u64) -> (d: u32)
    ensures
        d == depth_limit_spec(board),
        MIN_DEPTH <= d <= MAX_DEPTH,
{
    let mut small = true;
    let mut i: u64 = 0;
    while i < 16
        invariant
            i <= 16,
            small == forall|j: int| 0 <= j < i ==> #[trigger] cell(board, j) <= SMALL_RANK,
        decreases 16 - i,
    {
        proof {
            crate::board::lemma_cell_read(board, i);
        }
        if (board >> (4 * i)) & 0xf > SMALL_RANK {
            small = false;
        }
        i = i + 1;
    }
    if small {
        return MIN_DEPTH;
    }
    let mut count: u32 = 0;
    let mut r: u64 = 1;
    while r < 16
        invariant
            1 <= r <= 16,
            count == ranks_below(board, r as int),
            count < r,
        decreases 16 - r,
    {
        if has_rank_exec(board, r) {
            count = count + 1;
        }
        r = r + 1;
    }
    if count < MIN_DEPTH + 2 {
        MIN_DEPTH
    } else if count - 2 > MAX_DEPTH {
        MAX_DEPTH
    } else {
        count - 2
    }
}

/// The depth limit is the minimum for a board whose tiles are all 2048 or
/// less, and never leaves the range from the minimum to the maximum.
pub proof fn lemma_depth_limit_bounds(b: u64)
    ensures
        small_tiles(b) ==> depth_limit_spec(b) == MIN_DEPTH,
        MIN_DEPTH <= depth_limit_spec(b) <= MAX_DEPTH,
{
}

/// The outcome of searching one top-level move, with the search's counters.
pub struct MoveScore {
    /// 0 for a move that changes nothing; else the search value plus one unit.
    pub value: i64,
    pub moves_evaled: u64,
    pub nomoves: u64,
    pub tablehits: u64,
    pub cachehits: u64,
    pub cache_size: usize,
    pub maxdepth: u32,
}

impl Tables {
    /// Searches the move `d` from `board`, with a fresh cache and the depth
    /// limit of `board`: 0 for a move that changes nothing, else the value of
    /// the chance node after it, plus one unit so that any legal move beats
    /// an illegal one.
    pub fn score_toplevel_move(&self, board: u64, d: i32) -> (r: MoveScore)
        requires
            self.wf(),
        ensures
            r.value == toplevel_spec(board, d),
            move_spec(board, d) == board ==> r.value == 0,
            move_spec(board, d) != board ==> LEGAL_MOVE_BONUS <= r.value <= BOARD_BOUND + LEGAL_MOVE_BONUS,
    {
        proof {
            if move_spec(board, d) != board {
                crate::tables::lemma_changed_has_empty(board, d);
            }
        }
        let mut state = EvalState::new(get_depth_limit(board));
        let newboard = self.execute_move(board, d);
        let mut value: i64 = 0;
        if board != newboard {
            value = self.score_tilechoose_node(&mut state, newboard, 0, PROB_ONE) + LEGAL_MOVE_BONUS;
        }
        MoveScore {
            value,
            moves_evaled: state.moves_evaled,
            nomoves: state.nomoves,
            tablehits: state.tablehits,
            cachehits: state.cachehits,
            cache_size: state.cache_size(),
            maxdepth: state.maxdepth,
        }
    }

    /// Some move changes the board.
    pub fn has_legal_move(&self, board: u64) -> (r: bool)
        requires
            self.wf(),
        ensures
            r == exists|d: i32| 0 <= d < 4 && move_spec(board, d) != board,
    {
        let mut d: i32 = 0;
        while d < 4
            invariant
                self.wf(),
                0 <= d <= 4,
                forall|e: i32| 0 <= e < d ==> move_spec(board, e) == board,
            decreases 4 - d,
        {
            if self.execute_move(board, d) != board {
                return true;
            }
            d = d + 1;
        }
        false
    }

    /// The best move from `board`: the legal direction of greatest searched
    /// value, the first one on a tie; -1 when no move changes the board.
    pub fn find_best_move(&self, board: u64) -> (r: i32)
        requires
            self.wf(),
        ensures
            r == -1 <==> forall|d: i32| 0 <= d < 4 ==> move_spec(board, d) == board,
            r != -1 ==> 0 <= r < 4 && move_spec(board, r) != board,
            r != -1 ==> forall|d: i32| 0 <= d < 4 && move_spec(board, d) != board ==> toplevel_spec(board, d)
                <= toplevel_spec(board, r),
            r != -1 ==> forall|d: i32| 0 <= d < r && move_spec(board, d) != board ==> toplevel_spec(board, d)
                < toplevel_spec(board, r),
            forall|d: i32| 0 <= d < 4 && move_spec(board, d) != board
                && (forall|e: i32| 0 <= e < 4 && e != d ==> move_spec(board, e) == board) ==> r == d,
    {
        let mut scores: Vec<i64> = Vec::new();
        let mut legal: Vec<bool> = Vec::new();
        let mut d: i32 = 0;
        while d < 4
            invariant
                self.wf(),
                0 <= d <= 4,
                scores.len() == d,
                legal.len() == d,
                forall|e: int| 0 <= e < d ==> #[trigger] legal@[e] == (move_spec(board, e as i32) != board),
                forall|e: int| 0 <= e < d ==> #[trigger] scores@[e] == toplevel_spec(board, e as i32),
            decreases 4 - d,
        {
            let s = self.score_toplevel_move(board, d);
            scores.push(s.value);
            legal.push(self.execute_move(board, d) != board);
            d = d + 1;
        }
        let r = select_move(&scores, &legal);
        assert(forall|e: i32| 0 <= e < 4 ==> legal@[e as int] == (move_spec(board, e) != board));
        assert(forall|e: i32| 0 <= e < 4 ==> scores@[e as int] == toplevel_spec(board, e));
        r
    }
}

/// The index of the greatest score among the legal entries, the first one on
/// a tie; -1 when no entry is legal.
pub fn select_move(scores: &Vec<i64>, legal: &Vec<bool>) -> (r: i32)
    requires
        scores.len() == 4,
        legal.len() == 4,
    ensures
        r == -1 <==> forall|j: int| 0 <= j < 4 ==> !legal@[j],
        r != -1 ==> 0 <= r < 4 && legal@[r as int],
        r != -1 ==> forall|j: int| 0 <= j < 4 && legal@[j] ==> scores@[j] <= scores@[r as int],
        r != -1 ==> forall|j: int| 0 <= j < r && legal@[j] ==> scores@[j] < scores@[r as int],
{
    let mut best: i32 = -1;
    let mut i: usize = 0;
    while i < 4
        invariant
            scores.len() == 4,
            legal.len() == 4,
            i <= 4,
            -1 <= best < i,
            best == -1 <==> forall|j: int| 0 <= j < i ==> !legal@[j],
            best != -1 ==> legal@[best as int],
            best != -1 ==> forall|j: int| 0 <= j < i && legal@[j] ==> scores@[j] <= scores@[best as int],
            best != -1 ==> forall|j: int| 0 <= j < best && legal@[j] ==> scores@[j] < scores@[best as int],
        decreases 4 - i,
    {
        if legal[i] && (best == -1 || scores[i] > scores[best as usize]) {
            best = i as i32;
        }
        i = i + 1;
    }
    best
}

/// An expanded chance node below the cache ceiling leaves its own value in the
/// cache (unless the search below it had already cached the same board): a
/// later lookup at that depth or deeper finds exactly that value, and one
/// nearer the root finds nothing.
pub proof fn lemma_chance_records(board: u64, depth: u32, prob: u64, limit: u32, cache: Map<u64, CacheEntry>, at: u32)
    requires
        !(prob < PROB_THRESH || depth >= limit),
        depth < CACHE_DEPTH_LIMIT,
        lookup_spec(cache, board, depth) is None,
        count_empty_spec(board) > 0,
        !chance_fold(board, 0, depth, (prob / (count_empty_spec(board) as u64)) as u64, limit, cache, 0).1.contains_key(board),
    ensures
        lookup_spec(chance_spec(board, depth, prob, limit, cache).1, board, at) == if depth <= at {
            Some(chance_spec(board, depth, prob, limit, cache).0 as i64)
        } else {
            None
        },
{
}

/// An entry recorded for a board is found by every lookup at the same or a
/// greater depth, with the very value recorded, and by no lookup at a smaller
/// depth.
pub proof fn lemma_cache_reuse(cache: Map<u64, CacheEntry>, board: u64, recorded: u32, value: i64, depth: u32)
    requires
        !cache.contains_key(board),
    ensures
        lookup_spec(record_spec(cache, board, recorded, value), board, depth) == if recorded <= depth {
            Some(value)
        } else {
            None
        },
{
}

} // verus!
