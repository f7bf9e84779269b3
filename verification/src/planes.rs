use vstd::prelude::*;
use vstd::arithmetic::div_mod::*;
use crate::number_theory::{
    is_prime, lemma_combination_divisible, lemma_prime_product_zero, lemma_same_residue,
    lemma_small_multiple_is_zero,
};

verus! {

// A grid design on the points `0 ..= (m + 1) * w`: point `0`, a first row of `w` points
// `1 ..= w`, and `m` further rows of `w` points each. A point `v >= 1` has row `(v - 1) / w`
// and column `(v - 1) % w + 1`. With `m` prime and `m == w` (a projective plane of order `m`)
// or `m == w + 1` (an affine plane of order `m`), its blocks meet pairwise in at most one point.

/// The blocks of a grid design: a row with point `0`, a line of slope `s` through the first-row
/// point `s` (shifted by `t`), or a column.
pub ghost enum BlockId {
    Row(int),
    Slope(int, int),
    Col(int),
}

/// The parameters of a grid design: `m` is prime, and the rows hold `w == m` or `w == m - 1` points.
pub open spec fn grid_params(w: int, m: int) -> bool {
    w >= 1 && is_prime(m) && (m == w || m == w + 1)
}

/// The blocks that a grid design has.
pub open spec fn valid_block(w: int, m: int, id: BlockId) -> bool {
    match id {
        BlockId::Row(r) => 0 <= r <= m,
        BlockId::Slope(s, t) => 1 <= s < m && 0 <= t < m,
        BlockId::Col(j) => 1 <= j <= w,
    }
}

/// The row of point `v >= 1`.
pub open spec fn pt_row(w: int, v: int) -> int {
    (v - 1) / w
}

/// The column of point `v >= 1`, from `1` to `w`.
pub open spec fn pt_col(w: int, v: int) -> int {
    (v - 1) % w + 1
}

/// The row in which the line of slope `s`, shifted by `t`, crosses column `c`.
pub open spec fn slope_row(m: int, s: int, t: int, c: int) -> int {
    (t + (c - 1) * s) % m + 1
}

/// Point `v` lies on block `id`.
pub open spec fn in_block(w: int, m: int, id: BlockId, v: int) -> bool {
    &&& 0 <= v <= (m + 1) * w
    &&& match id {
        BlockId::Row(r) => v == 0 || (v >= 1 && pt_row(w, v) == r),
        BlockId::Slope(s, t) => v == s || (v > w && pt_row(w, v) == slope_row(m, s, t, pt_col(w, v))),
        BlockId::Col(j) => (m == w && v == w) || (v > w && pt_col(w, v) == j),
    }
}

/// The elements of block `id` when point `v` is the element `offset + v`.
pub open spec fn block_set(offset: int, w: int, m: int, id: BlockId) -> Set<u32> {
    Set::new(|x: u32| in_block(w, m, id, x - offset))
}

/// All blocks of the grid design, with point `v` as the element `offset + v`.
pub open spec fn plane_sets(offset: int, w: int, m: int) -> Set<Set<u32>> {
    Set::new(|s: Set<u32>| exists|id: BlockId| valid_block(w, m, id) && s == block_set(offset, w, m, id))
}

/// The number of blocks of a grid design.
pub open spec fn block_count(w: int, m: int) -> int {
    (m + 1) + (m - 1) * m + w
}

/// The position of a block in the order in which the blocks are built.
pub open spec fn block_key(w: int, m: int, id: BlockId) -> int {
    match id {
        BlockId::Row(r) => r,
        BlockId::Slope(s, t) => (m + 1) + (s - 1) * m + t,
        BlockId::Col(j) => (m + 1) + (m - 1) * m + (j - 1),
    }
}

/// A point `v >= 1` is `row * w + col`, with its column in `1 ..= w`.
pub proof fn lemma_coords(w: int, v: int)
    requires
        w >= 1,
        v >= 1,
    ensures
        v == pt_row(w, v) * w + pt_col(w, v),
        1 <= pt_col(w, v) <= w,
        pt_row(w, v) >= 0,
        v > w <==> pt_row(w, v) >= 1,
{
    lemma_fundamental_div_mod(v - 1, w);
    lemma_mod_bound(v - 1, w);
    lemma_div_pos_is_pos(v - 1, w);
    let r = pt_row(w, v);
    let c = pt_col(w, v);
    assert(v - 1 == w * r + (c - 1));
    assert(w * r == r * w) by (nonlinear_arith);
    if r == 0 {
        assert(w * r == 0) by (nonlinear_arith)
            requires
                r == 0,
        ;
        assert(c <= w);
    } else {
        assert(r * w >= w) by (nonlinear_arith)
            requires
                r >= 1,
                w >= 1,
        ;
    }
}

/// The point `row * w + col` has that row and column.
pub proof fn lemma_point_coords(w: int, row: int, col: int)
    requires
        w >= 1,
        row >= 0,
        1 <= col <= w,
    ensures
        pt_row(w, row * w + col) == row,
        pt_col(w, row * w + col) == col,
        row * w + col >= 1,
{
    assert(row * w >= 0) by (nonlinear_arith)
        requires
            row >= 0,
            w >= 1,
    ;
    lemma_fundamental_div_mod_converse(row * w + col - 1, w, row, col - 1);
}

/// Two points with the same row and column are the same point.
proof fn lemma_same_point(w: int, v1: int, v2: int)
    requires
        w >= 1,
        v1 >= 1,
        v2 >= 1,
        pt_row(w, v1) == pt_row(w, v2),
        pt_col(w, v1) == pt_col(w, v2),
    ensures
        v1 == v2,
{
    lemma_coords(w, v1);
    lemma_coords(w, v2);
}

/// A line of nonzero slope crosses each row at most once.
proof fn lemma_slope_col_unique(w: int, m: int, s: int, t: int, c1: int, c2: int)
    requires
        grid_params(w, m),
        1 <= s < m,
        1 <= c1 <= w,
        1 <= c2 <= w,
        slope_row(m, s, t, c1) == slope_row(m, s, t, c2),
    ensures
        c1 == c2,
{
    let x = t + (c1 - 1) * s;
    let y = t + (c2 - 1) * s;
    lemma_same_residue(m, x, y);
    assert(x - y == (c1 - c2) * s) by (nonlinear_arith)
        requires
            x == t + (c1 - 1) * s,
            y == t + (c2 - 1) * s,
    ;
    lemma_prime_product_zero(m, c1 - c2, s);
}

/// Two lines of different slopes cross in at most one column.
proof fn lemma_slopes_cross_once(
    w: int,
    m: int,
    s1: int,
    t1: int,
    s2: int,
    t2: int,
    c1: int,
    c2: int,
)
    requires
        grid_params(w, m),
        1 <= s1 < m,
        1 <= s2 < m,
        s1 != s2,
        1 <= c1 <= w,
        1 <= c2 <= w,
        slope_row(m, s1, t1, c1) == slope_row(m, s2, t2, c1),
        slope_row(m, s1, t1, c2) == slope_row(m, s2, t2, c2),
    ensures
        c1 == c2,
{
    let x1 = t1 + (c1 - 1) * s1;
    let y1 = t2 + (c1 - 1) * s2;
    let x2 = t1 + (c2 - 1) * s1;
    let y2 = t2 + (c2 - 1) * s2;
    lemma_same_residue(m, x1, y1);
    lemma_same_residue(m, x2, y2);
    lemma_combination_divisible(m, x1 - y1, x2 - y2, 1, -1);
    assert((x1 - y1) * 1 + (x2 - y2) * -1 == (c1 - c2) * (s1 - s2)) by (nonlinear_arith)
        requires
            x1 == t1 + (c1 - 1) * s1,
            y1 == t2 + (c1 - 1) * s2,
            x2 == t1 + (c2 - 1) * s1,
            y2 == t2 + (c2 - 1) * s2,
    ;
    lemma_prime_product_zero(m, c1 - c2, s1 - s2);
}

/// Parallel lines of the same slope never cross.
proof fn lemma_parallel_disjoint(m: int, s: int, t1: int, t2: int, c: int)
    requires
        m > 1,
        0 <= t1 < m,
        0 <= t2 < m,
        slope_row(m, s, t1, c) == slope_row(m, s, t2, c),
    ensures
        t1 == t2,
{
    let x = t1 + (c - 1) * s;
    let y = t2 + (c - 1) * s;
    lemma_same_residue(m, x, y);
    assert(x - y == t1 - t2);
    lemma_small_multiple_is_zero(m, t1 - t2);
}

/// A row-block and any other block share at most one point.
proof fn lemma_row_meets_once(w: int, m: int, r: int, id: BlockId, v1: int, v2: int)
    requires
        grid_params(w, m),
        valid_block(w, m, BlockId::Row(r)),
        valid_block(w, m, id),
        BlockId::Row(r) != id,
        in_block(w, m, BlockId::Row(r), v1),
        in_block(w, m, BlockId::Row(r), v2),
        in_block(w, m, id, v1),
        in_block(w, m, id, v2),
    ensures
        v1 == v2,
{
    if v1 >= 1 {
        lemma_coords(w, v1);
    }
    if v2 >= 1 {
        lemma_coords(w, v2);
    }
    match id {
        BlockId::Row(r2) => {},
        BlockId::Slope(s, t) => {
            if s >= 1 {
                lemma_coords(w, s);
            }
            if r >= 1 {
                lemma_slope_col_unique(w, m, s, t, pt_col(w, v1), pt_col(w, v2));
                lemma_same_point(w, v1, v2);
            }
        },
        BlockId::Col(j) => {
            lemma_coords(w, w);
            if r >= 1 {
                lemma_same_point(w, v1, v2);
            }
        },
    }
}

/// A slope-block and any block other than a row share at most one point.
proof fn lemma_slope_meets_once(w: int, m: int, s: int, t: int, id: BlockId, v1: int, v2: int)
    requires
        grid_params(w, m),
        valid_block(w, m, BlockId::Slope(s, t)),
        valid_block(w, m, id),
        BlockId::Slope(s, t) != id,
        !(id is Row),
        in_block(w, m, BlockId::Slope(s, t), v1),
        in_block(w, m, BlockId::Slope(s, t), v2),
        in_block(w, m, id, v1),
        in_block(w, m, id, v2),
    ensures
        v1 == v2,
{
    if v1 >= 1 {
        lemma_coords(w, v1);
    }
    if v2 >= 1 {
        lemma_coords(w, v2);
    }
    lemma_coords(w, s);
    match id {
        BlockId::Row(_) => {},
        BlockId::Slope(s2, t2) => {
            lemma_coords(w, s2);
            if s == s2 {
                if v1 > w {
                    lemma_parallel_disjoint(m, s, t, t2, pt_col(w, v1));
                }
                if v2 > w {
                    lemma_parallel_disjoint(m, s, t, t2, pt_col(w, v2));
                }
            } else {
                lemma_slopes_cross_once(w, m, s, t, s2, t2, pt_col(w, v1), pt_col(w, v2));
                lemma_same_point(w, v1, v2);
            }
        },
        BlockId::Col(j) => {
            lemma_coords(w, w);
            lemma_same_point(w, v1, v2);
        },
    }
}

/// Two different blocks of a grid design share at most one point.
pub proof fn lemma_blocks_meet_once(w: int, m: int, id1: BlockId, id2: BlockId, v1: int, v2: int)
    requires
        grid_params(w, m),
        valid_block(w, m, id1),
        valid_block(w, m, id2),
        id1 != id2,
        in_block(w, m, id1, v1),
        in_block(w, m, id1, v2),
        in_block(w, m, id2, v1),
        in_block(w, m, id2, v2),
    ensures
        v1 == v2,
{
    match id1 {
        BlockId::Row(r) => lemma_row_meets_once(w, m, r, id2, v1, v2),
        BlockId::Slope(s, t) => match id2 {
            BlockId::Row(r) => lemma_row_meets_once(w, m, r, id1, v1, v2),
            _ => lemma_slope_meets_once(w, m, s, t, id2, v1, v2),
        },
        BlockId::Col(j) => match id2 {
            BlockId::Row(r) => lemma_row_meets_once(w, m, r, id1, v1, v2),
            BlockId::Slope(s, t) => lemma_slope_meets_once(w, m, s, t, id1, v1, v2),
            BlockId::Col(j2) => {
                if v1 >= 1 {
                    lemma_coords(w, v1);
                }
                if v2 >= 1 {
                    lemma_coords(w, v2);
                }
            },
        },
    }
}

} // verus!
