//! One row of four cells: how it slides and merges, and what it scores.
use vstd::prelude::*;
use vstd::arithmetic::power2::{pow2, lemma2_to64, lemma_pow2_strictly_increases};
use crate::board::{nib, reverse_spec};

verus! {

/// The highest rank a cell can hold; merging two such tiles keeps this rank.
pub const MAX_RANK: u16 = 15;

/// The four ranks of a row, nearest the left edge first.
pub open spec fn line(r: u16) -> Seq<int> {
    seq![nib(r, 0) as int, nib(r, 1) as int, nib(r, 2) as int, nib(r, 3) as int]
}

/// The row whose four ranks (each below 16) are those of `s`.
pub open spec fn pack_line(s: Seq<int>) -> int {
    s[0] + 16 * s[1] + 256 * s[2] + 4096 * s[3]
}

/// The nonzero ranks of `s`, in order.
pub open spec fn compact(s: Seq<int>) -> Seq<int>
    decreases s.len(),
{
    if s.len() == 0 {
        s
    } else if s.last() == 0 {
        compact(s.drop_last())
    } else {
        compact(s.drop_last()).push(s.last())
    }
}

/// A merged tile: one rank higher, but never past the highest rank.
pub open spec fn bump(x: int) -> int {
    if x >= MAX_RANK {
        MAX_RANK as int
    } else {
        x + 1
    }
}

/// One pass from the front over packed tiles: each pair of equal neighbours
/// becomes one tile, and a merged tile takes part in no other merge.
pub open spec fn merge(s: Seq<int>) -> Seq<int>
    decreases s.len(),
{
    if s.len() < 2 {
        s
    } else if s[0] == s[1] {
        seq![bump(s[0])].add(merge(s.subrange(2, s.len() as int)))
    } else {
        seq![s[0]].add(merge(s.subrange(1, s.len() as int)))
    }
}

/// `m` followed by zeros up to four cells.
pub open spec fn pad(m: Seq<int>) -> Seq<int> {
    m.add(Seq::new((4 - m.len()) as nat, |i: int| 0int))
}

/// A line moved toward its front: tiles packed, equal neighbours merged once.
pub open spec fn slide_line(s: Seq<int>) -> Seq<int> {
    pad(merge(compact(s)))
}

/// A row moved to the left.
pub open spec fn slide_left_spec(r: u16) -> u16 {
    pack_line(slide_line(line(r))) as u16
}

/// A row moved to the right: the reversed row moved left, reversed back.
pub open spec fn slide_right_spec(r: u16) -> u16 {
    reverse_spec(slide_left_spec(reverse_spec(r)))
}

/// Every rank of `s` is a rank a cell can hold.
pub open spec fn ranks_ok(s: Seq<int>) -> bool {
    forall|i: int| 0 <= i < s.len() ==> 0 <= #[trigger] s[i] <= 15
}

/// Every rank of `s` is a tile (not empty) a cell can hold.
pub open spec fn tiles_ok(s: Seq<int>) -> bool {
    forall|i: int| 0 <= i < s.len() ==> 1 <= #[trigger] s[i] <= 15
}

/// No empty cell stands before a tile.
pub open spec fn packed(s: Seq<int>) -> bool {
    forall|i: int, j: int| 0 <= i < j < s.len() && #[trigger] s[i] == 0 ==> #[trigger] s[j] == 0
}

/// No two neighbouring tiles have the same rank.
pub open spec fn no_merge(s: Seq<int>) -> bool {
    forall|i: int| 0 <= i < s.len() - 1 ==> !(#[trigger] s[i] != 0 && s[i] == s[i + 1])
}

pub proof fn lemma_compact(s: Seq<int>)
    requires
        ranks_ok(s),
    ensures
        compact(s).len() <= s.len(),
        tiles_ok(compact(s)),
    decreases s.len(),
{
    if s.len() > 0 {
        lemma_compact(s.drop_last());
    }
}

pub proof fn lemma_merge(s: Seq<int>)
    requires
        tiles_ok(s),
    ensures
        merge(s).len() <= s.len(),
        tiles_ok(merge(s)),
    decreases s.len(),
{
    if s.len() >= 2 {
        if s[0] == s[1] {
            lemma_merge(s.subrange(2, s.len() as int));
        } else {
            lemma_merge(s.subrange(1, s.len() as int));
        }
    }
}

/// A moved line has four ranks, each a rank a cell can hold, tiles first.
pub proof fn lemma_slide_line(s: Seq<int>)
    requires
        ranks_ok(s),
        s.len() == 4,
    ensures
        slide_line(s).len() == 4,
        ranks_ok(slide_line(s)),
        packed(slide_line(s)),
{
    lemma_compact(s);
    lemma_merge(compact(s));
    let m = merge(compact(s));
    let p = slide_line(s);
    assert forall|i: int| 0 <= i < p.len() implies 0 <= #[trigger] p[i] <= 15 by {
        if i < m.len() {
            assert(p[i] == m[i]);
        }
    }
    assert forall|i: int, j: int| 0 <= i < j < p.len() && #[trigger] p[i] == 0 implies #[trigger] p[j] == 0 by {
        if i < m.len() {
            assert(p[i] == m[i]);
        }
    }
}

proof fn lemma_compact_packed(s: Seq<int>)
    requires
        ranks_ok(s),
        packed(s),
    ensures
        compact(s) =~= s.take(compact(s).len() as int),
        compact(s).len() <= s.len(),
        forall|i: int| compact(s).len() <= i < s.len() ==> #[trigger] s[i] == 0,
    decreases s.len(),
{
    if s.len() > 0 {
        let t = s.drop_last();
        assert(packed(t)) by {
            assert forall|i: int, j: int| 0 <= i < j < t.len() && #[trigger] t[i] == 0 implies #[trigger] t[j] == 0 by {
                assert(s[i] == t[i] && s[j] == t[j]);
            }
        }
        lemma_compact_packed(t);
        let n = compact(t).len() as int;
        if s.last() != 0 {
            if n < t.len() {
                assert(t[n] == 0);
                assert(s[n] == 0);
                assert(s[s.len() - 1] == 0);
            }
            assert(compact(s) =~= s);
        } else {
            assert forall|i: int| compact(s).len() <= i < s.len() implies #[trigger] s[i] == 0 by {
                if i < t.len() {
                    assert(t[i] == 0);
                }
            }
        }
    }
}

proof fn lemma_merge_settled(t: Seq<int>)
    requires
        tiles_ok(t),
        no_merge(t),
    ensures
        merge(t) == t,
    decreases t.len(),
{
    if t.len() >= 2 {
        let u = t.subrange(1, t.len() as int);
        assert(t[0] != 0 && !(t[0] != 0 && t[0] == t[1]));
        assert(no_merge(u)) by {
            assert forall|i: int| 0 <= i < u.len() - 1 implies !(#[trigger] u[i] != 0 && u[i] == u[i + 1]) by {
                assert(u[i] == t[i + 1] && u[i + 1] == t[i + 2]);
            }
        }
        lemma_merge_settled(u);
        assert(seq![t[0]].add(u) =~= t);
    }
}

/// A line whose tiles are packed to the front and hold no equal neighbours
/// does not change when moved.
pub proof fn lemma_slide_settled(s: Seq<int>)
    requires
        s.len() == 4,
        ranks_ok(s),
        packed(s),
        no_merge(s),
    ensures
        slide_line(s) == s,
{
    lemma_compact_packed(s);
    lemma_compact(s);
    let c = compact(s);
    assert(no_merge(c)) by {
        assert forall|i: int| 0 <= i < c.len() - 1 implies !(#[trigger] c[i] != 0 && c[i] == c[i + 1]) by {
            assert(c[i] == s[i] && c[i + 1] == s[i + 1]);
        }
    }
    lemma_merge_settled(c);
    assert(slide_line(s) =~= s);
}

proof fn lemma_compact_full(s: Seq<int>)
    requires
        ranks_ok(s),
        compact(s).len() == s.len(),
    ensures
        compact(s) == s,
    decreases s.len(),
{
    if s.len() > 0 {
        lemma_compact(s.drop_last());
        if s.last() != 0 {
            lemma_compact_full(s.drop_last());
            assert(compact(s) =~= s);
        }
    }
}

proof fn lemma_merge_full(t: Seq<int>)
    requires
        tiles_ok(t),
        merge(t).len() == t.len(),
    ensures
        merge(t) == t,
    decreases t.len(),
{
    if t.len() >= 2 {
        if t[0] == t[1] {
            lemma_merge(t.subrange(2, t.len() as int));
        } else {
            let u = t.subrange(1, t.len() as int);
            lemma_merge_full(u);
            assert(seq![t[0]].add(u) =~= t);
        }
    }
}

/// A line that a move changes ends in an empty cell afterwards.
pub proof fn lemma_slide_changed(s: Seq<int>)
    requires
        s.len() == 4,
        ranks_ok(s),
        slide_line(s) != s,
    ensures
        slide_line(s)[3] == 0,
{
    lemma_compact(s);
    lemma_merge(compact(s));
    let m = merge(compact(s));
    if m.len() == 4 {
        lemma_compact_full(s);
        lemma_merge_full(s);
        assert(slide_line(s) =~= s);
    }
}

/// The ranks of a vector of cells, as integers.
pub open spec fn as_ints(v: Seq<u16>) -> Seq<int> {
    v.map_values(|x: u16| x as int)
}

/// The row read from its other end: cell `i` of the result is cell `3 - i`.
pub fn reverse_row(r: u16) -> (v: u16)
    ensures
        v == reverse_spec(r),
        line(v) == line(r).reverse(),
{
    proof {
        lemma_reverse(r);
    }
    (r >> 12) | ((r >> 4) & 0x00F0) | ((r << 4) & 0x0F00) | (r << 12)
}

/// Reversing a row reverses its line, and reversing twice gives it back.
pub proof fn lemma_reverse(r: u16)
    ensures
        line(reverse_spec(r)) == line(r).reverse(),
        reverse_spec(reverse_spec(r)) == r,
{
    let v = reverse_spec(r);
    let w = reverse_spec(v);
    assert(nib(v, 0) == nib(r, 3) && nib(v, 1) == nib(r, 2) && nib(v, 2) == nib(r, 1)
        && nib(v, 3) == nib(r, 0) && w == r) by (bit_vector)
        requires
            v == reverse_spec(r),
            w == reverse_spec(v),
    ;
    assert(line(v) =~= line(r).reverse());
}

/// A row is the packing of its own line; packing four ranks and reading them
/// back gives the same ranks.
pub proof fn lemma_line_pack(r: u16)
    ensures
        pack_line(line(r)) == r as int,
        ranks_ok(line(r)),
        line(r).len() == 4,
{
    assert(nib(r, 0) + 16 * nib(r, 1) + 256 * nib(r, 2) + 4096 * nib(r, 3) == r
        && nib(r, 0) <= 15 && nib(r, 1) <= 15 && nib(r, 2) <= 15 && nib(r, 3) <= 15) by (bit_vector);
}

pub proof fn lemma_pack_line(s: Seq<int>)
    requires
        s.len() == 4,
        ranks_ok(s),
    ensures
        line(pack_line(s) as u16) == s,
{
    let a = s[0] as u16;
    let b = s[1] as u16;
    let c = s[2] as u16;
    let d = s[3] as u16;
    let r = (a + 16 * b + 256 * c + 4096 * d) as u16;
    assert(a <= 15 && b <= 15 && c <= 15 && d <= 15);
    assert(nib(r, 0) == a && nib(r, 1) == b && nib(r, 2) == c && nib(r, 3) == d) by (bit_vector)
        requires
            a <= 15 && b <= 15 && c <= 15 && d <= 15,
            r == (a + 16 * b + 256 * c + 4096 * d) as u16,
    ;
    assert(line(r) =~= s);
}

/// Moves a row to the left: tiles packed toward cell 0, each pair of equal
/// neighbours merged once, from the left.
pub fn slide_row_left(row: u16) -> (r: u16)
    ensures
        r == slide_left_spec(row),
{
    let ghost s = line(row);
    proof {
        lemma_line_pack(row);
    }
    let mut c: Vec<u16> = Vec::new();
    let mut i: u16 = 0;
    while i < 4
        invariant
            0 <= i <= 4,
            s == line(row),
            ranks_ok(s),
            s.len() == 4,
            as_ints(c@) == compact(s.take(i as int)),
        decreases 4 - i,
    {
        let v = (row >> (4 * i)) & 0xf;
        assert(v == nib(row, i as int));
        assert(s[i as int] == v as int);
        assert(s.take(i + 1).drop_last() =~= s.take(i as int));
        if v != 0 {
            c.push(v);
            assert(as_ints(c@) =~= compact(s.take(i as int)).push(v as int));
        }
        i = i + 1;
    }
    assert(s.take(4) =~= s);
    let ghost cs = compact(s);
    proof {
        lemma_compact(s);
    }
    let mut m: Vec<u16> = Vec::new();
    let mut j: usize = 0;
    assert(cs.subrange(0, cs.len() as int) =~= cs);
    assert(as_ints(m@) =~= Seq::<int>::empty());
    assert(as_ints(m@).add(merge(cs)) =~= merge(cs));
    while j < c.len()
        invariant
            as_ints(c@) == cs,
            tiles_ok(cs),
            cs.len() <= 4,
            j <= c.len(),
            m.len() <= j,
            merge(cs) == as_ints(m@).add(merge(cs.subrange(j as int, cs.len() as int))),
        decreases c.len() - j,
    {
        let ghost x = cs.subrange(j as int, cs.len() as int);
        let ghost m0 = m@;
        assert(c@[j as int] as int == cs[j as int]);
        if j + 1 < c.len() && c[j] == c[j + 1] {
            assert(c@[j as int + 1] as int == cs[j as int + 1]);
            let v: u16 = if c[j] >= MAX_RANK { MAX_RANK } else { c[j] + 1 };
            assert(x.subrange(2, x.len() as int) =~= cs.subrange(j + 2, cs.len() as int));
            assert(merge(x) == seq![bump(x[0])].add(merge(x.subrange(2, x.len() as int))));
            m.push(v);
            assert(as_ints(m@) =~= as_ints(m0).push(v as int));
            j = j + 2;
        } else {
            let v = c[j];
            if j + 1 < c.len() {
                assert(c@[j as int + 1] as int == cs[j as int + 1]);
                assert(x.subrange(1, x.len() as int) =~= cs.subrange(j + 1, cs.len() as int));
            } else {
                let ghost e = cs.subrange(j + 1, cs.len() as int);
                assert(e.len() == 0);
                assert(merge(e) == e);
                assert(x =~= seq![x[0]].add(e));
            }
            m.push(v);
            assert(as_ints(m@) =~= as_ints(m0).push(v as int));
            j = j + 1;
        }
        assert(as_ints(m@).add(merge(cs.subrange(j as int, cs.len() as int))) =~= as_ints(m0).add(merge(x)));
    }
    let ghost e = cs.subrange(j as int, cs.len() as int);
    assert(e.len() == 0);
    assert(merge(e) == e);
    assert(as_ints(m@) =~= merge(cs));
    proof {
        lemma_merge(cs);
    }
    while m.len() < 4
        invariant
            as_ints(m@).len() <= 4,
            as_ints(m@).take(merge(cs).len() as int) == merge(cs),
            forall|k: int| merge(cs).len() <= k < m.len() ==> #[trigger] m@[k] == 0,
            merge(cs).len() <= m.len(),
        decreases 4 - m.len(),
    {
        m.push(0);
    }
    let ghost p = slide_line(s);
    assert(as_ints(m@) =~= p);
    assert(m@[0] as int == p[0] && m@[1] as int == p[1] && m@[2] as int == p[2] && m@[3] as int == p[3]);
    proof {
        lemma_slide_line(s);
    }
    assert(m[0] <= 15 && m[1] <= 15 && m[2] <= 15 && m[3] <= 15);
    m[0] + 16 * m[1] + 256 * m[2] + 4096 * m[3]
}

/// What a tile of rank `x` has earned by the merges that made it:
/// `(x - 1) * 2^x` from rank 2 on.
pub open spec fn rank_score(x: int) -> int {
    if x >= 2 {
        (x - 1) * pow2(x as nat)
    } else {
        0
    }
}

/// The game score held in a row.
pub open spec fn score_row_spec(r: u16) -> int {
    let s = line(r);
    rank_score(s[0]) + rank_score(s[1]) + rank_score(s[2]) + rank_score(s[3])
}

fn rank_score_of(rank: u32) -> (v: u32)
    requires
        rank <= 15,
    ensures
        v == rank_score(rank as int),
        v <= 14 * 32768,
{
    if rank < 2 {
        return 0;
    }
    let mut p: u32 = 1;
    let mut k: u32 = 0;
    proof {
        lemma2_to64();
    }
    while k < rank
        invariant
            k <= rank <= 15,
            p == pow2(k as nat),
            pow2(15) == 32768,
        decreases rank - k,
    {
        proof {
            if k < 14 {
                lemma_pow2_strictly_increases(k as nat, 14);
            }
            lemma2_to64();
        }
        p = p * 2;
        proof {
            vstd::arithmetic::power2::lemma_pow2_unfold((k + 1) as nat);
        }
        k = k + 1;
    }
    proof {
        if rank < 15 {
            lemma_pow2_strictly_increases(rank as nat, 15);
        }
    }
    assert((rank - 1) * p <= 14 * 32768) by (nonlinear_arith)
        requires
            rank <= 15,
            p <= 32768,
    ;
    (rank - 1) * p
}

/// The game score held in a row: `(rank - 1) * 2^rank` summed over its tiles
/// of rank 2 and up.
pub fn score_row(row: u16) -> (v: u32)
    ensures
        v == score_row_spec(row),
        v <= 4 * 14 * 32768,
{
    proof {
        lemma_line_pack(row);
    }
    let c0 = row & 0xf;
    let c1 = (row >> 4) & 0xf;
    let c2 = (row >> 8) & 0xf;
    let c3 = (row >> 12) & 0xf;
    assert(c0 == nib(row, 0) && c1 == nib(row, 1) && c2 == nib(row, 2) && c3 == nib(row, 3)) by (bit_vector)
        requires
            c0 == row & 0xf,
            c1 == (row >> 4) & 0xf,
            c2 == (row >> 8) & 0xf,
            c3 == (row >> 12) & 0xf,
    ;
    rank_score_of(c0 as u32) + rank_score_of(c1 as u32) + rank_score_of(c2 as u32) + rank_score_of(c3 as u32)
}

} // verus!
