use vstd::prelude::*;
use vstd::arithmetic::div_mod::{lemma_fundamental_div_mod_converse, lemma_mod_multiples_basic};
use std::collections::BTreeSet;
use crate::fx_sets::{batch_sets, hashset, BatchSet};
use crate::number_theory::is_prime;
use crate::planes::{
    block_count, block_key, block_set, grid_params, in_block, lemma_blocks_meet_once, lemma_coords,
    lemma_point_coords, plane_sets, pt_col, pt_row, slope_row, valid_block, BlockId,
};
use crate::statics::{BatchNumber, Composition};
use crate::fx_sets::{pair_set, PairSet};
use crate::text::{decimal, push_decimal};
use vstd::string::*;
use vstd::std_specs::iter::IteratorSpec;
use crate::triples_array::{descending, table_wf, TriplesArray};
use crate::consistency::{consistent, law_consistent_table_triples};
use crate::counting::law_full_table_is_steiner;

verus! {

broadcast use vstd::laws_cmp::group_laws_cmp, vstd::std_specs::btree::group_btree_axioms;

/// A collection of batches: sets of `phi` elements each, drawn from the `omicron` elements
/// `min ..= max`.
#[derive(Debug)]
pub struct Batches {
    pub omicron: u32,
    pub phi: u32,
    pub min: u32,
    pub max: u32,
    pub sets: BatchSet,
}

/// Two different batches share at most one element: no pair of elements lies in two batches.
pub open spec fn meet_at_most_once(sets: Set<Set<u32>>) -> bool {
    forall|s1: Set<u32>, s2: Set<u32>, x: u32, y: u32|
        #![trigger sets.contains(s1), sets.contains(s2), s1.contains(x), s2.contains(y)]
        sets.contains(s1) && sets.contains(s2) && s1 != s2 && s1.contains(x) && s1.contains(y)
            && s2.contains(x) && s2.contains(y) ==> x == y
}

/// The parameters allow a Steiner system on `o` elements from `min` to `max` with blocks of
/// `p`: every element lies in the same number of blocks, and the pairs divide evenly.
pub open spec fn header_ok(o: int, p: int, min: int, max: int) -> bool {
    &&& o >= 1
    &&& o - 1 + min == max
    &&& p > 1
    &&& o > 1
    &&& (p == o || p * (p - 1) + 1 <= o)
    &&& (o - 1) % (p - 1) == 0
    &&& (o * (o - 1)) % (p * (p - 1)) == 0
}

/// There are as many blocks as pairs of elements over pairs in a block.
pub open spec fn count_ok(o: int, p: int, sets: Set<Set<u32>>) -> bool {
    sets.finite() && sets.len() == (o * (o - 1)) / (p * (p - 1))
}

/// Every block holds `p` elements from `min` to `max`.
pub open spec fn shapes_ok(p: int, min: int, max: int, sets: Set<Set<u32>>) -> bool {
    forall|s: Set<u32>| #[trigger]
        sets.contains(s) ==> s.finite() && s.len() == p && forall|x: u32|
            #[trigger] s.contains(x) ==> min <= x <= max
}

/// The batches form a Steiner system on `min ..= max`: `o` elements, blocks of `p` elements,
/// no pair of elements in two blocks, and as many blocks as there are pairs of elements
/// divided by the pairs in a block, so that every pair lies in exactly one block.
pub open spec fn steiner_system(o: int, p: int, min: int, max: int, sets: Set<Set<u32>>) -> bool {
    &&& header_ok(o, p, min, max)
    &&& count_ok(o, p, sets)
    &&& shapes_ok(p, min, max, sets)
    &&& meet_at_most_once(sets)
}

/// The failures that an audit calls severe: anything but a pair in two batches.
pub open spec fn shape_failure(o: int, p: int, min: int, max: int, sets: Set<Set<u32>>) -> bool {
    !(header_ok(o, p, min, max) && count_ok(o, p, sets) && shapes_ok(p, min, max, sets))
}

/// The pairs `(x, y)` with `x < y` of a batch.
pub open spec fn pairs_of(s: Set<u32>) -> Set<(u32, u32)> {
    Set::new(|pr: (u32, u32)| pr.0 < pr.1 && s.contains(pr.0) && s.contains(pr.1))
}

/// The audit of a collection of batches gets as far as computing `o * (o - 1)`.
pub open spec fn audit_reaches_products(o: int, p: int, min: int, max: int) -> bool {
    &&& o - 1 + min == max
    &&& p > 1
    &&& o > 1
    &&& (p == o || p * (p - 1) + 1 <= o)
    &&& (o - 1) % (p - 1) == 0
}

/// Why a collection of batches fails its audit; `severe` unless the failure is a pair of
/// elements in two batches.
#[derive(Debug)]
pub struct ValidationError {
    pub err: String,
    pub severe: bool,
}

impl ValidationError {
    /// The error as text: the message, under a banner when the error is severe.
    pub fn to_string(&self) -> (r: String)
        ensures
            r@ == (if self.severe {
                "=== Severe Batch Generation Error ===\n"@ + self.err@
            } else {
                self.err@
            }),
    {
        if self.severe {
            let mut text = String::from_str("=== Severe Batch Generation Error ===\n");
            text.append(self.err.as_str());
            text
        } else {
            String::from_str(self.err.as_str())
        }
    }
}

impl Batches {
    /// The batches that this value holds.
    pub open spec fn blocks(&self) -> Set<Set<u32>> {
        batch_sets(self.sets)
    }

    /// The batches form a Steiner system with the value's parameters.
    pub open spec fn is_steiner_system(&self) -> bool {
        steiner_system(
            self.omicron as int,
            self.phi as int,
            self.min as int,
            self.max as int,
            self.blocks(),
        )
    }
}

/// The first `k` blocks of a grid design, in the order `block_key`, each of `w + 1` points.
pub open spec fn grid_built(offset: int, w: int, m: int, k: int, sets: Set<Set<u32>>) -> bool {
    &&& sets.finite()
    &&& sets.len() == k
    &&& forall|s: Set<u32>| #[trigger] sets.contains(s) ==> s.finite() && s.len() == w + 1
    &&& forall|s: Set<u32>|
        #[trigger] sets.contains(s) <==> exists|id: BlockId|
            valid_block(w, m, id) && block_key(w, m, id) < k && s == block_set(offset, w, m, id)
}

/// Blocks of a grid design have different positions in the building order.
proof fn lemma_key_injective(w: int, m: int, id1: BlockId, id2: BlockId)
    requires
        grid_params(w, m),
        valid_block(w, m, id1),
        valid_block(w, m, id2),
        block_key(w, m, id1) == block_key(w, m, id2),
    ensures
        id1 == id2,
{
    match id1 {
        BlockId::Slope(s, t) => {
            assert((s - 1) * m + t >= 0 && (s - 1) * m + t < (m - 1) * m) by (nonlinear_arith)
                requires
                    1 <= s < m,
                    0 <= t < m,
            ;
            lemma_fundamental_div_mod_converse((s - 1) * m + t, m, s - 1, t);
        },
        _ => {},
    }
    match id2 {
        BlockId::Slope(s, t) => {
            assert((s - 1) * m + t >= 0 && (s - 1) * m + t < (m - 1) * m) by (nonlinear_arith)
                requires
                    1 <= s < m,
                    0 <= t < m,
            ;
            lemma_fundamental_div_mod_converse((s - 1) * m + t, m, s - 1, t);
        },
        _ => {},
    }
}

/// Every block of a grid design comes before `block_count`.
proof fn lemma_key_bound(w: int, m: int, id: BlockId)
    requires
        grid_params(w, m),
        valid_block(w, m, id),
    ensures
        0 <= block_key(w, m, id) < block_count(w, m),
{
    match id {
        BlockId::Slope(s, t) => {
            assert((s - 1) * m + t >= 0 && (s - 1) * m + t < (m - 1) * m) by (nonlinear_arith)
                requires
                    1 <= s < m,
                    0 <= t < m,
            ;
        },
        BlockId::Col(j) => {
            assert((m - 1) * m >= 0) by (nonlinear_arith)
                requires
                    m >= 1,
            ;
        },
        _ => {},
    }
}

/// A finite set of at least two elements holds two different elements.
proof fn lemma_two_elements(s: Set<u32>) -> (xy: (u32, u32))
    requires
        s.finite(),
        s.len() >= 2,
    ensures
        s.contains(xy.0),
        s.contains(xy.1),
        xy.0 != xy.1,
{
    let x = s.choose();
    assert(s.contains(x));
    let rest = s.remove(x);
    assert(rest.len() >= 1);
    let y = rest.choose();
    assert(rest.contains(y));
    (x, y)
}

/// Adding the next block of a grid design adds a block that was not there yet.
proof fn lemma_grid_step(offset: int, w: int, m: int, k: int, sets: Set<Set<u32>>, id: BlockId)
    requires
        grid_params(w, m),
        grid_built(offset, w, m, k, sets),
        valid_block(w, m, id),
        block_key(w, m, id) == k,
        block_set(offset, w, m, id).finite(),
        block_set(offset, w, m, id).len() == w + 1,
    ensures
        !sets.contains(block_set(offset, w, m, id)),
        grid_built(offset, w, m, k + 1, sets.insert(block_set(offset, w, m, id))),
{
    let b = block_set(offset, w, m, id);
    if sets.contains(b) {
        let id2 = choose|id2: BlockId|
            valid_block(w, m, id2) && block_key(w, m, id2) < k && b == block_set(offset, w, m, id2);
        let (x, y) = lemma_two_elements(b);
        assert(block_set(offset, w, m, id2).contains(x));
        assert(block_set(offset, w, m, id2).contains(y));
        lemma_blocks_meet_once(w, m, id, id2, x - offset, y - offset);
    }
    let after = sets.insert(b);
    assert forall|s: Set<u32>| #[trigger] after.contains(s) <==> exists|id2: BlockId|
        valid_block(w, m, id2) && block_key(w, m, id2) < k + 1 && s == block_set(offset, w, m, id2) by {
        if after.contains(s) {
            if s != b {
                assert(sets.contains(s));
            }
        }
        if exists|id2: BlockId|
            valid_block(w, m, id2) && block_key(w, m, id2) < k + 1 && s == block_set(offset, w, m, id2) {
            let id2 = choose|id2: BlockId|
                valid_block(w, m, id2) && block_key(w, m, id2) < k + 1 && s == block_set(
                    offset,
                    w,
                    m,
                    id2,
                );
            if block_key(w, m, id2) == k {
                lemma_key_injective(w, m, id, id2);
            } else {
                assert(sets.contains(s));
            }
        }
    }
}

/// `row * w` stays within the grid for rows up to `m`.
proof fn lemma_grid_offsets(w: int, m: int, row: int)
    requires
        w >= 1,
        0 <= row <= m,
    ensures
        0 <= row * w <= m * w,
        (m + 1) * w == m * w + w,
        m >= 1 ==> m * w >= w,
{
    assert(m >= 1 ==> m * w >= w) by (nonlinear_arith)
        requires
            w >= 1,
    ;
    assert(0 <= row * w <= m * w) by (nonlinear_arith)
        requires
            w >= 1,
            0 <= row <= m,
    ;
    assert((m + 1) * w == m * w + w) by (nonlinear_arith);
}

/// The row-block `r` of a grid design: element `offset` and the `w` elements of row `r`.
pub fn row_block(offset: u32, w: u32, m: u32, r: u32) -> (b: BTreeSet<u32>)
    requires
        grid_params(w as int, m as int),
        r <= m,
        offset + (m + 1) * w <= u32::MAX,
    ensures
        b@ == block_set(offset as int, w as int, m as int, BlockId::Row(r as int)),
        b@.finite(),
        b@.len() == w + 1,
{
    proof {
        lemma_grid_offsets(w as int, m as int, r as int);
    }
    let base = offset + r * w;
    let mut set = BTreeSet::new();
    set.insert(offset);
    let mut c: u32 = 1;
    while c <= w
        invariant
            grid_params(w as int, m as int),
            r <= m,
            base == offset + r * w,
            base + w <= u32::MAX,
            w + 1 <= u32::MAX,
            1 <= c <= w + 1,
            set@.finite(),
            set@.len() == c,
            forall|x: u32| #[trigger] set@.contains(x) <==> (x == offset || (base < x && x < base + c)),
        decreases w + 1 - c,
    {
        set.insert(base + c);
        c += 1;
    }
    proof {
        let bs = block_set(offset as int, w as int, m as int, BlockId::Row(r as int));
        assert forall|x: u32| set@.contains(x) == bs.contains(x) by {
            let v = x - offset;
            if base < x && x <= base + w {
                lemma_point_coords(w as int, r as int, x - base);
            }
            if v >= 1 && v <= (m + 1) * w {
                lemma_coords(w as int, v);
                if pt_row(w as int, v) == r {
                    assert(x == base + pt_col(w as int, v));
                }
            }
        }
        assert(set@ =~= bs);
    }
    set
}

/// The slope-block `(s, ii - 1)` of a grid design: element `offset + s` and, in each column
/// `c`, the element of row `(ii + (c - 1) * s - 1) % m + 1`.
pub fn slope_block(offset: u32, w: u32, m: u32, s: u32, ii: u32) -> (b: BTreeSet<u32>)
    requires
        grid_params(w as int, m as int),
        1 <= s < m,
        1 <= ii <= m,
        offset + (m + 1) * w <= u32::MAX,
    ensures
        b@ == block_set(offset as int, w as int, m as int, BlockId::Slope(s as int, ii - 1)),
        b@.finite(),
        b@.len() == w + 1,
{
    let ghost t: int = ii - 1;
    let ghost wi = w as int;
    let ghost mi = m as int;
    proof {
        lemma_grid_offsets(wi, mi, mi);
    }
    let mut set = BTreeSet::new();
    set.insert(offset + s);
    let mut c: u32 = 1;
    while c <= w
        invariant
            grid_params(wi, mi),
            wi == w,
            mi == m,
            t == ii - 1,
            1 <= s < m,
            1 <= ii <= m,
            offset + (m + 1) * w <= u32::MAX,
            (m + 1) * w == m * w + w,
            m * w >= w,
            w + 1 <= u32::MAX,
            1 <= c <= w + 1,
            set@.finite(),
            set@.len() == c,
            forall|x: u32| #[trigger]
                set@.contains(x) <==> (x == offset + s || (x - offset > wi && x - offset <= (mi + 1) * wi
                    && pt_col(wi, x - offset) < c && pt_row(wi, x - offset) == slope_row(
                    mi,
                    s as int,
                    t,
                    pt_col(wi, x - offset),
                ))),
        decreases w + 1 - c,
    {
        assert(ii + (c - 1) * s <= (m + 1) * w) by (nonlinear_arith)
            requires
                1 <= c <= w,
                1 <= s < m,
                1 <= ii <= m,
                w >= 1,
        ;
        let row = ((ii + (c - 1) * s - 1) % m) + 1;
        proof {
            lemma_grid_offsets(wi, mi, row as int);
            lemma_point_coords(wi, row as int, c as int);
            lemma_coords(wi, row * w + c);
            assert(row == slope_row(mi, s as int, t, c as int));
        }
        set.insert(offset + row * w + c);
        proof {
            let v = row * w + c;
            assert forall|x: u32| #[trigger]
                set@.contains(x) <==> (x == offset + s || (x - offset > wi && x - offset <= (mi + 1)
                    * wi && pt_col(wi, x - offset) < c + 1 && pt_row(wi, x - offset) == slope_row(
                    mi,
                    s as int,
                    t,
                    pt_col(wi, x - offset),
                ))) by {
                if x - offset > wi && x != offset + v {
                    lemma_coords(wi, x - offset);
                    if pt_col(wi, x - offset) == c && pt_row(wi, x - offset) == slope_row(
                        mi,
                        s as int,
                        t,
                        pt_col(wi, x - offset),
                    ) {
                        assert(x - offset == v);
                    }
                }
            }
        }
        c += 1;
    }
    proof {
        let bs = block_set(offset as int, wi, mi, BlockId::Slope(s as int, t));
        assert forall|x: u32| set@.contains(x) == bs.contains(x) by {
            let v = x - offset;
            if v > wi {
                lemma_coords(wi, v);
            }
        }
        assert(set@ =~= bs);
    }
    set
}

/// The column-block `j` of a grid design: the element of column `j` in each row below the
/// first, and, when `m == w`, element `offset + w`.
pub fn col_block(offset: u32, w: u32, m: u32, j: u32) -> (b: BTreeSet<u32>)
    requires
        grid_params(w as int, m as int),
        1 <= j <= w,
        offset + (m + 1) * w <= u32::MAX,
    ensures
        b@ == block_set(offset as int, w as int, m as int, BlockId::Col(j as int)),
        b@.finite(),
        b@.len() == w + 1,
{
    let ghost wi = w as int;
    let ghost mi = m as int;
    proof {
        lemma_grid_offsets(wi, mi, mi);
    }
    let mut set = BTreeSet::new();
    if m == w {
        set.insert(offset + w);
    }
    let mut r: u32 = 1;
    assert forall|x: u32| #[trigger]
        set@.contains(x) <==> ((m == w && x == offset + w) || (x - offset > wi && x - offset <= (mi
            + 1) * wi && pt_col(wi, x - offset) == j && pt_row(wi, x - offset) < r)) by {
        if x - offset > wi {
            lemma_coords(wi, x - offset);
        }
    }
    while r <= m
        invariant
            grid_params(wi, mi),
            wi == w,
            mi == m,
            1 <= j <= w,
            offset + (m + 1) * w <= u32::MAX,
            (m + 1) * w == m * w + w,
            m * w >= w,
            1 <= r <= m + 1,
            set@.finite(),
            set@.len() == (if m == w { 1int } else { 0 }) + r - 1,
            forall|x: u32| #[trigger]
                set@.contains(x) <==> ((m == w && x == offset + w) || (x - offset > wi && x - offset
                    <= (mi + 1) * wi && pt_col(wi, x - offset) == j && pt_row(wi, x - offset) < r)),
        decreases m + 1 - r,
    {
        proof {
            lemma_grid_offsets(wi, mi, r as int);
            lemma_point_coords(wi, r as int, j as int);
            lemma_coords(wi, r * w + j);
        }
        set.insert(offset + r * w + j);
        proof {
            let v = r * w + j;
            assert forall|x: u32| #[trigger]
                set@.contains(x) <==> ((m == w && x == offset + w) || (x - offset > wi && x - offset
                    <= (mi + 1) * wi && pt_col(wi, x - offset) == j && pt_row(wi, x - offset) < r
                    + 1)) by {
                if x - offset > wi && x != offset + v {
                    lemma_coords(wi, x - offset);
                    if pt_col(wi, x - offset) == j && pt_row(wi, x - offset) == r {
                        assert(x - offset == v);
                    }
                }
            }
        }
        r += 1;
    }
    proof {
        let bs = block_set(offset as int, wi, mi, BlockId::Col(j as int));
        assert forall|x: u32| set@.contains(x) == bs.contains(x) by {
            let v = x - offset;
            if v > wi && v <= (mi + 1) * wi {
                lemma_coords(wi, v);
                let pr = pt_row(wi, v);
                if pr > mi {
                    assert(pr * wi >= (mi + 1) * wi) by (nonlinear_arith)
                        requires
                            pr >= mi + 1,
                            wi >= 1,
                    ;
                }
            }
        }
        assert(set@ =~= bs);
    }
    set
}

/// Adds every block of a grid design to an empty set of batches: the rows first, then the
/// slopes, then the columns, as the generators build them.
fn fill_grid(offset: u32, w: u32, m: u32, sets: &mut BatchSet)
    requires
        grid_params(w as int, m as int),
        offset + (m + 1) * w <= u32::MAX,
        batch_sets(*old(sets)) == Set::<Set<u32>>::empty(),
    ensures
        grid_built(offset as int, w as int, m as int, block_count(w as int, m as int), batch_sets(*final(sets))),
{
    let ghost wi = w as int;
    let ghost mi = m as int;
    let ghost oi = offset as int;
    proof {
        assert((mi + 1) * wi >= mi + 1 && (mi + 1) * wi >= wi + 1) by (nonlinear_arith)
            requires
                wi >= 1,
                mi >= 1,
        ;
        assert forall|s: Set<u32>| #[trigger] batch_sets(*sets).contains(s) <==> exists|id: BlockId|
            valid_block(wi, mi, id) && block_key(wi, mi, id) < 0 && s == block_set(oi, wi, mi, id) by {
            if exists|id: BlockId| valid_block(wi, mi, id) && block_key(wi, mi, id) < 0 && s == block_set(oi, wi, mi, id) {
                let id = choose|id: BlockId| valid_block(wi, mi, id) && block_key(wi, mi, id) < 0 && s == block_set(oi, wi, mi, id);
                lemma_key_bound(wi, mi, id);
            }
        }
    }
    let mut r: u32 = 0;
    while r <= m
        invariant
            grid_params(wi, mi),
            wi == w,
            mi == m,
            oi == offset,
            offset + (m + 1) * w <= u32::MAX,
            m + 1 <= u32::MAX,
            r <= m + 1,
            grid_built(oi, wi, mi, r as int, batch_sets(*sets)),
        decreases m + 1 - r,
    {
        let b = row_block(offset, w, m, r);
        proof {
            lemma_grid_step(oi, wi, mi, r as int, batch_sets(*sets), BlockId::Row(r as int));
        }
        sets.insert(b);
        r += 1;
    }
    let mut s: u32 = 1;
    while s < m
        invariant
            grid_params(wi, mi),
            wi == w,
            mi == m,
            oi == offset,
            offset + (m + 1) * w <= u32::MAX,
            m + 1 <= u32::MAX,
            1 <= s <= m,
            grid_built(oi, wi, mi, (mi + 1) + (s - 1) * mi, batch_sets(*sets)),
        decreases m - s,
    {
        let mut ii: u32 = 1;
        while ii <= m
            invariant
                grid_params(wi, mi),
                wi == w,
                mi == m,
                oi == offset,
                offset + (m + 1) * w <= u32::MAX,
                m + 1 <= u32::MAX,
                1 <= s < m,
                1 <= ii <= m + 1,
                grid_built(oi, wi, mi, (mi + 1) + (s - 1) * mi + (ii - 1), batch_sets(*sets)),
            decreases m + 1 - ii,
        {
            let b = slope_block(offset, w, m, s, ii);
            proof {
                lemma_grid_step(
                    oi,
                    wi,
                    mi,
                    (mi + 1) + (s - 1) * mi + (ii - 1),
                    batch_sets(*sets),
                    BlockId::Slope(s as int, ii - 1),
                );
            }
            sets.insert(b);
            ii += 1;
        }
        assert((s - 1) * mi + mi == s * mi) by (nonlinear_arith);
        s += 1;
    }
    let mut j: u32 = 1;
    while j <= w
        invariant
            grid_params(wi, mi),
            wi == w,
            mi == m,
            oi == offset,
            offset + (m + 1) * w <= u32::MAX,
            w + 1 <= u32::MAX,
            1 <= j <= w + 1,
            grid_built(oi, wi, mi, (mi + 1) + (mi - 1) * mi + (j - 1), batch_sets(*sets)),
        decreases w + 1 - j,
    {
        let b = col_block(offset, w, m, j);
        proof {
            lemma_grid_step(
                oi,
                wi,
                mi,
                (mi + 1) + (mi - 1) * mi + (j - 1),
                batch_sets(*sets),
                BlockId::Col(j as int),
            );
        }
        sets.insert(b);
        j += 1;
    }
}

/// All blocks of a grid design are the plane's blocks, and they form a Steiner system on the
/// `(m + 1) * w + 1` elements from `offset`, with blocks of `w + 1` elements.
proof fn lemma_grid_steiner(offset: int, w: int, m: int, sets: Set<Set<u32>>)
    requires
        grid_params(w, m),
        offset >= 0,
        grid_built(offset, w, m, block_count(w, m), sets),
    ensures
        sets == plane_sets(offset, w, m),
        steiner_system((m + 1) * w + 1, w + 1, offset, offset + (m + 1) * w, sets),
{
    let o = (m + 1) * w + 1;
    let p = w + 1;
    assert forall|s: Set<u32>| sets.contains(s) <==> #[trigger] plane_sets(offset, w, m).contains(s) by {
        if plane_sets(offset, w, m).contains(s) {
            let id = choose|id: BlockId| valid_block(w, m, id) && s == block_set(offset, w, m, id);
            lemma_key_bound(w, m, id);
        }
    }
    assert(sets =~= plane_sets(offset, w, m));
    assert(p * (p - 1) + 1 <= o) by (nonlinear_arith)
        requires
            p == w + 1,
            o == (m + 1) * w + 1,
            m >= w,
            w >= 1,
    ;
    lemma_mod_multiples_basic(m + 1, w);
    assert((m + 1) * w == w * (m + 1)) by (nonlinear_arith);
    assert(p * (p - 1) > 0) by (nonlinear_arith)
        requires
            p >= 2,
    ;
    if m == w {
        assert(o * (o - 1) == (p * (p - 1)) * o + 0 && o == block_count(w, m)) by (nonlinear_arith)
            requires
                m == w,
                p == w + 1,
                o == (m + 1) * w + 1,
        ;
        lemma_fundamental_div_mod_converse(o * (o - 1), p * (p - 1), o, 0);
    } else {
        let q = (w + 1) * (w + 2);
        assert(o * (o - 1) == (p * (p - 1)) * q + 0 && q == block_count(w, m)) by (nonlinear_arith)
            requires
                m == w + 1,
                p == w + 1,
                o == (m + 1) * w + 1,
                q == (w + 1) * (w + 2),
        ;
        lemma_fundamental_div_mod_converse(o * (o - 1), p * (p - 1), q, 0);
    }
    assert(p * (p - 1) > 0) by (nonlinear_arith)
        requires
            p >= 2,
    ;
    assert forall|s: Set<u32>| #[trigger] sets.contains(s) implies s.finite() && s.len() == p
        && forall|x: u32| #[trigger] s.contains(x) ==> offset <= x <= offset + (m + 1) * w by {
        let id = choose|id: BlockId|
            valid_block(w, m, id) && block_key(w, m, id) < block_count(w, m) && s == block_set(offset, w, m, id);
    }
    assert forall|s1: Set<u32>, s2: Set<u32>, x: u32, y: u32|
        #![trigger sets.contains(s1), sets.contains(s2), s1.contains(x), s2.contains(y)]
        sets.contains(s1) && sets.contains(s2) && s1 != s2 && s1.contains(x) && s1.contains(y)
            && s2.contains(x) && s2.contains(y) implies x == y by {
        let id1 = choose|id: BlockId|
            valid_block(w, m, id) && block_key(w, m, id) < block_count(w, m) && s1 == block_set(offset, w, m, id);
        let id2 = choose|id: BlockId|
            valid_block(w, m, id) && block_key(w, m, id) < block_count(w, m) && s2 == block_set(offset, w, m, id);
        lemma_blocks_meet_once(w, m, id1, id2, x - offset, y - offset);
    }
}

/// The elements `offset ..< offset + n`.
pub open spec fn range_set(offset: int, n: int) -> Set<u32> {
    Set::new(|x: u32| offset <= x < offset + n)
}

/// The elements `a` and `b`.
pub open spec fn two_set(a: int, b: int) -> Set<u32> {
    Set::new(|x: u32| x == a || x == b)
}

/// The three pairs of the elements `offset`, `offset + 1` and `offset + 2`.
pub open spec fn triangle_sets(offset: int) -> Set<Set<u32>> {
    Set::empty().insert(two_set(offset, offset + 1)).insert(two_set(offset, offset + 2)).insert(
        two_set(offset + 1, offset + 2),
    )
}

/// A set of two different elements.
fn pair_block(a: u32, b: u32) -> (r: BTreeSet<u32>)
    requires
        a != b,
    ensures
        r@ == two_set(a as int, b as int),
        r@.finite(),
        r@.len() == 2,
{
    let mut set = BTreeSet::new();
    set.insert(a);
    set.insert(b);
    assert(set@ =~= two_set(a as int, b as int));
    set
}

impl Batches {
    /// A single batch of all `phi` elements `offset ..< offset + phi`.
    pub fn phi_equals_omicron(phi: u32, offset: u32) -> (r: Batches)
        requires
            phi > 1,
            offset + phi <= u32::MAX,
        ensures
            r.omicron == phi,
            r.phi == phi,
            r.min == offset,
            r.max == phi - 1 + offset,
            r.blocks() == Set::<Set<u32>>::empty().insert(range_set(offset as int, phi as int)),
            r.is_steiner_system(),
    {
        let mut set = BTreeSet::new();
        let mut x: u32 = offset;
        while x < offset + phi
            invariant
                offset <= x <= offset + phi,
                offset + phi <= u32::MAX,
                set@.finite(),
                set@.len() == x - offset,
                forall|y: u32| #[trigger] set@.contains(y) <==> offset <= y < x,
            decreases offset + phi - x,
        {
            set.insert(x);
            x += 1;
        }
        assert(set@ =~= range_set(offset as int, phi as int));
        let mut sets = hashset(1);
        sets.insert(set);
        let r = Batches { omicron: phi, phi, min: offset, max: phi - 1 + offset, sets };
        proof {
            let o = phi as int;
            assert(o * (o - 1) == (o * (o - 1)) * 1 + 0) by (nonlinear_arith);
            assert(o * (o - 1) > 0) by (nonlinear_arith)
                requires
                    o > 1,
            ;
            lemma_fundamental_div_mod_converse(o * (o - 1), o * (o - 1), 1, 0);
            assert(r.blocks() =~= Set::<Set<u32>>::empty().insert(range_set(offset as int, phi as int)));
            lemma_mod_multiples_basic(1, o - 1);
        }
        r
    }

    /// For prime `phi`, the affine plane of order `phi`: `phi * phi` elements from `offset`, in
    /// `phi * (phi + 1)` batches of `phi`; `None` when `phi` is not prime.
    pub fn phi_2(phi: u32, offset: u32) -> (r: Option<Batches>)
        requires
            is_prime(phi as int) ==> phi * phi <= u32::MAX && phi * phi - 1 + offset <= u32::MAX,
        ensures
            r is Some <==> is_prime(phi as int),
            r matches Some(b) ==> {
                &&& b.omicron == phi * phi
                &&& b.phi == phi
                &&& b.min == offset
                &&& b.max == phi * phi - 1 + offset
                &&& b.blocks() == plane_sets(offset as int, phi - 1, phi as int)
                &&& b.is_steiner_system()
            },
    {
        if !phi.is_prime() {
            return None;
        }
        let omicron = phi * phi;
        assert(omicron + phi <= u32::MAX) by (nonlinear_arith)
            requires
                omicron == phi * phi,
                phi * phi <= u32::MAX,
        ;
        let mut sets = hashset(omicron as usize + phi as usize);
        let phi_n1 = phi - 1;
        assert((phi + 1) * phi_n1 + 1 == omicron) by (nonlinear_arith)
            requires
                phi_n1 == phi - 1,
                omicron == phi * phi,
        ;
        fill_grid(offset, phi_n1, phi, &mut sets);
        proof {
            lemma_grid_steiner(offset as int, phi_n1 as int, phi as int, batch_sets(sets));
        }
        Some(Batches { omicron, phi, min: offset, max: omicron - 1 + offset, sets })
    }

    /// For `phi - 1` prime, the projective plane of order `phi - 1`: `phi * (phi - 1) + 1`
    /// elements from `offset`, in as many batches of `phi`; for `phi == 2`, the three pairs of
    /// three elements; `None` otherwise.
    pub fn phi_2_n_phi_p_1(phi: u32, offset: u32) -> (r: Option<Batches>)
        requires
            phi >= 1,
            phi * (phi - 1) + 1 <= u32::MAX,
            is_prime(phi - 1) || phi == 2 ==> phi * (phi - 1) + offset <= u32::MAX,
        ensures
            r is Some <==> (is_prime(phi - 1) || phi == 2),
            r matches Some(b) ==> {
                &&& b.omicron == phi * (phi - 1) + 1
                &&& b.phi == phi
                &&& b.min == offset
                &&& b.max == phi * (phi - 1) + offset
                &&& phi == 2 ==> b.blocks() == triangle_sets(offset as int)
                &&& phi != 2 ==> b.blocks() == plane_sets(offset as int, phi - 1, phi - 1)
                &&& b.is_steiner_system()
            },
    {
        let phi_n1 = phi - 1;
        let omicron = phi * phi_n1 + 1;
        if !phi_n1.is_prime() {
            if phi == 2 {
                let mut sets = hashset(3);
                let first = pair_block(offset, 1 + offset);
                let second = pair_block(offset, 2 + offset);
                let third = pair_block(1 + offset, 2 + offset);
                let ghost views = (first@, second@, third@);
                sets.insert(first);
                sets.insert(second);
                sets.insert(third);
                let r = Batches { omicron, phi, min: offset, max: omicron - 1 + offset, sets };
                proof {
                    let a = two_set(offset as int, offset + 1);
                    let b = two_set(offset as int, offset + 2);
                    let c = two_set(offset + 1, offset + 2);
                    assert(a.contains((offset + 1) as u32) && !b.contains((offset + 1) as u32));
                    assert(a.contains(offset) && !c.contains(offset));
                    assert(b.contains(offset) && !c.contains(offset));
                    assert(r.blocks() =~= triangle_sets(offset as int));
                    lemma_fundamental_div_mod_converse(6, 2, 3, 0);
                    assert forall|s1: Set<u32>, s2: Set<u32>, x: u32, y: u32|
                        #![trigger r.blocks().contains(s1), r.blocks().contains(s2), s1.contains(x), s2.contains(y)]
                        r.blocks().contains(s1) && r.blocks().contains(s2) && s1 != s2 && s1.contains(x)
                            && s1.contains(y) && s2.contains(x) && s2.contains(y) implies x == y by {
                        assert(s1 == a || s1 == b || s1 == c);
                        assert(s2 == a || s2 == b || s2 == c);
                    }
                }
                return Some(r);
            }
            return None;
        }
        let mut sets = hashset(omicron as usize);
        assert((phi_n1 + 1) * phi_n1 + 1 == omicron) by (nonlinear_arith)
            requires
                phi_n1 == phi - 1,
                omicron == phi * phi_n1 + 1,
        ;
        fill_grid(offset, phi_n1, phi_n1, &mut sets);
        proof {
            lemma_grid_steiner(offset as int, phi_n1 as int, phi_n1 as int, batch_sets(sets));
        }
        Some(Batches { omicron, phi, min: offset, max: omicron - 1 + offset, sets })
    }
}

/// The elements of a set, each once, in the order of the set's walk.
pub(crate) fn set_elements(set: &BTreeSet<u32>) -> (v: Vec<u32>)
    ensures
        set@.finite(),
        v@.to_set() == set@,
        v.len() == set@.len(),
        v@.no_duplicates(),
        increasing(v@),
{
    let mut v: Vec<u32> = Vec::new();
    let ghost whole = set.iter().remaining();
    for x in it: set.iter()
        invariant
            it.seq() == whole,
            v.len() == it.index(),
            v@ == whole.unref().take(it.index()),
    {
        v.push(*x);
        proof {
            assert(v@ =~= whole.unref().take(it.index() + 1));
        }
    }
    proof {
        assert(v@ =~= whole.unref());
        assert(whole.no_duplicates());
        assert forall|i: int, j: int| 0 <= i < v.len() && 0 <= j < v.len() && i != j implies v@[i] != v@[j] by {
            assert(whole[i] != whole[j]);
        }
        assert(vstd::laws_cmp::obeys_cmp::<u32>());
        assert(vstd::laws_cmp::obeys_cmp::<&u32>());
        assert(vstd::std_specs::btree::increasing_seq(whole));
        assert forall|i: int, j: int| 0 <= i < j < v.len() implies v@[i] < v@[j] by {
            assert(vstd::std_specs::cmp::OrdSpec::cmp_spec(&whole[i], &whole[j]) is Less);
        }
    }
    v
}

/// The elements rise from first to last.
pub open spec fn increasing(v: Seq<u32>) -> bool {
    forall|i: int, j: int| 0 <= i < j < v.len() ==> v[i] < v[j]
}

/// The elements' numerals, separated by ", ".
pub open spec fn joined(v: Seq<u32>) -> Seq<char>
    decreases v.len(),
{
    if v.len() == 0 {
        Seq::empty()
    } else if v.len() == 1 {
        decimal(v[0] as nat)
    } else {
        joined(v.drop_last()) + ", "@ + decimal(v.last() as nat)
    }
}

/// The elements as "{a, b, c}".
pub open spec fn elements_text(v: Seq<u32>) -> Seq<char> {
    "{"@ + joined(v) + "}"@
}

/// The audit's message for a batch whose elements, in increasing order, are `v`, where it
/// fails a check: its size, or its smallest or largest element; `None` where it passes.
pub open spec fn set_message(v: Seq<u32>, min: u32, max: u32, phi: u32, omicron: u32) -> Option<Seq<char>> {
    let bounds = bounds_text(min, max, phi, omicron);
    if v.len() != phi {
        Some("Set is not size phi. set = "@ + elements_text(v) + "; "@ + bounds)
    } else if v.len() == 0 {
        None
    } else if v[0] < min {
        Some("Set contains number below minimum value. set.min = "@ + decimal(v[0] as nat) + "; "@ + bounds)
    } else if v.last() > max {
        Some(
            "Set contains number above maximum value. set.max = "@ + decimal(v.last() as nat) + "; "@ + bounds
                + ";  set = "@ + elements_text(v),
        )
    } else {
        None
    }
}

/// "phi = ..; omicron = ..; min = ..; max = .." for the given parameters.
pub open spec fn params_text(phi: u32, omicron: u32, min: u32, max: u32) -> Seq<char> {
    "phi = "@ + decimal(phi as nat) + "; omicron = "@ + decimal(omicron as nat) + "; min = "@ + decimal(min as nat)
        + "; max = "@ + decimal(max as nat)
}

/// The message of the first check on a collection's parameters and count of batches that
/// fails in its audit, or `None` where all of them pass.
pub open spec fn header_message(omicron: u32, phi: u32, min: u32, max: u32, count: nat) -> Option<Seq<char>> {
    let o = omicron as int;
    let p = phi as int;
    let params = params_text(phi, omicron, min, max);
    if o - 1 + min != max || p <= 1 {
        Some("Phi is too small. "@ + params)
    } else if o <= 1 {
        Some("Omicron is too small. "@ + params)
    } else if !(p == o || p * (p - 1) + 1 <= o) {
        Some("phi is too large. phi = "@ + decimal(phi as nat) + "; omicron = "@ + decimal(omicron as nat))
    } else if (o - 1) % (p - 1) != 0 {
        Some(
            "Non-integral number of appearances of each element. "@ + params + "; computed lambda = "@ + decimal(
                ((o - 1) / (p - 1)) as nat,
            ),
        )
    } else if (o * (o - 1)) % (p * (p - 1)) != 0 {
        Some(
            "Correct number of batches is non-integral for the given phi and omicron. "@ + params
                + "; expected len: "@ + decimal((o * (o - 1)) as nat) + "/"@ + decimal((p * (p - 1)) as nat)
                + "; actual len: "@ + decimal(count),
        )
    } else if count != (o * (o - 1)) / (p * (p - 1)) {
        Some(
            "The number of batches is incorrect. "@ + params + "; expected len: "@ + decimal(
                ((o * (o - 1)) / (p * (p - 1))) as nat,
            ) + "; actual len: "@ + decimal(count),
        )
    } else {
        None
    }
}

/// Appends "phi = ..; omicron = ..; min = ..; max = ..".
fn push_phi_omicron_min_max(s: &mut String, b: &Batches)
    ensures
        final(s)@ == old(s)@ + params_text(b.phi, b.omicron, b.min, b.max),
{
    s.append("phi = ");
    push_decimal(s, b.phi as u64);
    s.append("; omicron = ");
    push_decimal(s, b.omicron as u64);
    s.append("; min = ");
    push_decimal(s, b.min as u64);
    s.append("; max = ");
    push_decimal(s, b.max as u64);
}

/// "min = ..; max = ..; phi = ..; omicron = .." for the given parameters.
pub open spec fn bounds_text(min: u32, max: u32, phi: u32, omicron: u32) -> Seq<char> {
    "min = "@ + decimal(min as nat) + "; max = "@ + decimal(max as nat) + "; phi = "@ + decimal(phi as nat)
        + "; omicron = "@ + decimal(omicron as nat)
}

/// The audit's message for the pair `(x, y)` found in two batches.
pub open spec fn pair_message(x: u32, y: u32, min: u32, max: u32, phi: u32, omicron: u32) -> Seq<char> {
    "Pair appears at least twice. pair = ("@ + decimal(x as nat) + ", "@ + decimal(y as nat) + "); "@ + bounds_text(
        min,
        max,
        phi,
        omicron,
    )
}

/// Appends "min = ..; max = ..; phi = ..; omicron = ..".
fn push_min_max_phi_omicron(s: &mut String, b: &Batches)
    ensures
        final(s)@ == old(s)@ + bounds_text(b.min, b.max, b.phi, b.omicron),
{
    s.append("min = ");
    push_decimal(s, b.min as u64);
    s.append("; max = ");
    push_decimal(s, b.max as u64);
    s.append("; phi = ");
    push_decimal(s, b.phi as u64);
    s.append("; omicron = ");
    push_decimal(s, b.omicron as u64);
}

/// Appends the elements as "{a, b, c}".
fn push_elements(s: &mut String, elems: &Vec<u32>)
    ensures
        final(s)@ == old(s)@ + elements_text(elems@),
{
    s.append("{");
    let mut i: usize = 0;
    while i < elems.len()
        invariant
            0 <= i <= elems.len(),
            s@ == old(s)@ + "{"@ + joined(elems@.take(i as int)),
        decreases elems.len() - i,
    {
        let ghost before = s@;
        if i > 0 {
            s.append(", ");
        }
        push_decimal(s, elems[i] as u64);
        proof {
            let t = elems@.take(i + 1);
            assert(t.drop_last() =~= elems@.take(i as int));
            assert(t.last() == elems@[i as int]);
            if i == 0 {
                assert(joined(elems@.take(0)) =~= Seq::<char>::empty());
                assert(s@ =~= old(s)@ + "{"@ + joined(t));
            } else {
                assert(s@ =~= old(s)@ + "{"@ + joined(t));
            }
        }
        i += 1;
    }
    s.append("}");
    proof {
        assert(elems@.take(elems.len() as int) =~= elems@);
        assert(s@ =~= old(s)@ + elements_text(elems@));
    }
}

/// A severe error whose message starts with `head` and goes on with the parameters.
fn header_error(head: &str, b: &Batches) -> (r: ValidationError)
    ensures
        r.severe,
        r.err@ == head@ + params_text(b.phi, b.omicron, b.min, b.max),
{
    let mut err = String::from_str(head);
    push_phi_omicron_min_max(&mut err, b);
    ValidationError { err, severe: true }
}

/// Checks one batch: `phi` elements, none below `min` or above `max`.
fn check_set(b: &Batches, set: &BTreeSet<u32>, elems: &Vec<u32>) -> (r: Option<ValidationError>)
    requires
        elems@.to_set() == set@,
        elems.len() == set@.len(),
        set@.finite(),
        increasing(elems@),
    ensures
        r is None <==> (set@.len() == b.phi && forall|x: u32| #[trigger] set@.contains(x) ==> b.min <= x <= b.max),
        r matches Some(e) ==> e.severe && set_message(elems@, b.min, b.max, b.phi, b.omicron) == Some(e.err@),
        r is None ==> set_message(elems@, b.min, b.max, b.phi, b.omicron) is None,
{
    if set.len() != b.phi as usize {
        let mut err = String::from_str("Set is not size phi. set = ");
        push_elements(&mut err, elems);
        err.append("; ");
        push_min_max_phi_omicron(&mut err, b);
        return Some(ValidationError { err, severe: true });
    }
    if elems.len() == 0 {
        return None;
    }
    let mut smallest: u32 = elems[0];
    let mut largest: u32 = elems[0];
    let mut i: usize = 1;
    assert(elems@.contains(elems@[0]));
    assert(elems@.to_set().contains(elems@[0]));
    while i < elems.len()
        invariant
            1 <= i <= elems.len(),
            elems@.contains(smallest),
            elems@.contains(largest),
            forall|j: int| 0 <= j < i ==> smallest <= #[trigger] elems@[j] <= largest,
        decreases elems.len() - i,
    {
        if elems[i] < smallest {
            smallest = elems[i];
        }
        if elems[i] > largest {
            largest = elems[i];
        }
        i += 1;
    }
    proof {
        assert forall|x: u32| #[trigger] set@.contains(x) implies smallest <= x <= largest by {
            assert(elems@.to_set().contains(x));
            let j = choose|j: int| 0 <= j < elems.len() && elems@[j] == x;
        }
        assert(set@.contains(smallest)) by {
            assert(elems@.to_set().contains(smallest));
        }
        assert(set@.contains(largest)) by {
            assert(elems@.to_set().contains(largest));
        }
    }
    if smallest < b.min {
        let mut err = String::from_str("Set contains number below minimum value. set.min = ");
        push_decimal(&mut err, smallest as u64);
        err.append("; ");
        push_min_max_phi_omicron(&mut err, b);
        return Some(ValidationError { err, severe: true });
    }
    if largest > b.max {
        let mut err = String::from_str("Set contains number above maximum value. set.max = ");
        push_decimal(&mut err, largest as u64);
        err.append("; ");
        push_min_max_phi_omicron(&mut err, b);
        err.append(";  set = ");
        push_elements(&mut err, elems);
        return Some(ValidationError { err, severe: true });
    }
    None
}

/// The pair of two elements, smaller first.
pub open spec fn ordered_pair(x: u32, y: u32) -> (u32, u32) {
    if x < y {
        (x, y)
    } else {
        (y, x)
    }
}

/// The pair `pr` of distinct elements of `e` comes, by the positions of its elements, before
/// positions `(a, b)` in the order in which the pairs are visited.
pub open spec fn pair_visited(e: Seq<u32>, pr: (u32, u32), a: int, b: int) -> bool {
    let i = e.index_of(pr.0);
    let j = e.index_of(pr.1);
    let lo = if i < j { i } else { j };
    let hi = if i < j { j } else { i };
    lo < a || (lo == a && hi < b)
}

/// Records every pair of the batch's elements; stops at the first pair already recorded,
/// which it returns.
fn insert_pairs(pairs: &mut PairSet, elems: &Vec<u32>, Ghost(set): Ghost<Set<u32>>) -> (r: Option<(u32, u32)>)
    requires
        elems@.to_set() == set,
        elems@.no_duplicates(),
    ensures
        r matches Some(pr) ==> pairs_of(set).contains(pr) && pair_set(*old(pairs)).contains(pr),
        r is None ==> pair_set(*final(pairs)) == pair_set(*old(pairs)).union(pairs_of(set)),
        r is None ==> pair_set(*old(pairs)).disjoint(pairs_of(set)),
{
    let ghost old_pairs = pair_set(*pairs);
    let ghost e = elems@;
    let n = elems.len();
    proof {
        assert forall|k: int| 0 <= k < n implies #[trigger] e.index_of(e[k]) == k by {
            assert(e.contains(e[k]));
        }
    }
    let mut a: usize = 0;
    while a < n
        invariant
            n == elems.len(),
            e == elems@,
            e.to_set() == set,
            e.no_duplicates(),
            old_pairs == pair_set(*old(pairs)),
            forall|k: int| 0 <= k < n ==> #[trigger] e.index_of(e[k]) == k,
            0 <= a <= n,
            forall|pr: (u32, u32)| #[trigger] old_pairs.contains(pr) ==> pair_set(*pairs).contains(pr),
            forall|pr: (u32, u32)| #[trigger] pair_set(*pairs).contains(pr) ==> old_pairs.contains(pr)
                || (pairs_of(set).contains(pr) && pair_visited(e, pr, a as int, a + 1)),
            forall|pr: (u32, u32)|
                #![trigger pairs_of(set).contains(pr), pair_visited(e, pr, a as int, a + 1)]
                pairs_of(set).contains(pr) && pair_visited(e, pr, a as int, a + 1) ==> pair_set(*pairs).contains(pr)
                    && !old_pairs.contains(pr),
        decreases n - a,
    {
        let mut b: usize = a + 1;
        while b < n
            invariant
                n == elems.len(),
                e == elems@,
                e.to_set() == set,
                e.no_duplicates(),
                old_pairs == pair_set(*old(pairs)),
                forall|k: int| 0 <= k < n ==> #[trigger] e.index_of(e[k]) == k,
                0 <= a < n,
                a < b <= n,
                forall|pr: (u32, u32)| #[trigger] old_pairs.contains(pr) ==> pair_set(*pairs).contains(pr),
                forall|pr: (u32, u32)| #[trigger] pair_set(*pairs).contains(pr) ==> old_pairs.contains(pr)
                    || (pairs_of(set).contains(pr) && pair_visited(e, pr, a as int, b as int)),
                forall|pr: (u32, u32)|
                    #![trigger pairs_of(set).contains(pr), pair_visited(e, pr, a as int, b as int)]
                    pairs_of(set).contains(pr) && pair_visited(e, pr, a as int, b as int) ==> pair_set(*pairs).contains(pr)
                        && !old_pairs.contains(pr),
            decreases n - b,
        {
            let x = elems[a];
            let y = elems[b];
            let pr = if x < y { (x, y) } else { (y, x) };
            proof {
                assert(e[a as int] != e[b as int]);
                assert(e.to_set().contains(x) && e.to_set().contains(y));
                assert(pairs_of(set).contains(pr));
                assert(!pair_visited(e, pr, a as int, b as int));
                assert(pair_visited(e, pr, a as int, b + 1));
            }
            if !pairs.insert(pr) {
                return Some(pr);
            }
            proof {
                assert forall|q: (u32, u32)| #[trigger] pair_set(*pairs).contains(q) implies old_pairs.contains(q)
                    || (pairs_of(set).contains(q) && pair_visited(e, q, a as int, b + 1)) by {
                    if q != pr {
                        if pairs_of(set).contains(q) && pair_visited(e, q, a as int, b as int) {
                        }
                    }
                }
                assert forall|q: (u32, u32)|
                    #![trigger pairs_of(set).contains(q), pair_visited(e, q, a as int, b + 1)]
                    pairs_of(set).contains(q) && pair_visited(e, q, a as int, b + 1) implies pair_set(*pairs).contains(q)
                        && !old_pairs.contains(q) by {
                    if q != pr {
                        assert(e.to_set().contains(q.0) && e.to_set().contains(q.1));
                        let i = e.index_of(q.0);
                        let j = e.index_of(q.1);
                        assert(e.contains(q.0) && e.contains(q.1));
                        if pair_visited(e, q, a as int, b as int) {
                        } else {
                            assert(e[i] == q.0 && e[j] == q.1);
                            assert(false);
                        }
                    }
                }
            }
            b += 1;
        }
        proof {
            assert forall|q: (u32, u32)| #[trigger] pairs_of(set).contains(q) implies (pair_visited(e, q, a as int, b as int)
                <==> pair_visited(e, q, a + 1, a + 2)) by {
                assert(e.to_set().contains(q.0) && e.to_set().contains(q.1));
                assert(e.contains(q.0) && e.contains(q.1));
                assert(e[e.index_of(q.0)] == q.0 && e[e.index_of(q.1)] == q.1);
            }
        }
        a += 1;
    }
    proof {
        assert forall|q: (u32, u32)| #[trigger] pairs_of(set).contains(q) implies pair_visited(e, q, a as int, a + 1) by {
            assert(e.to_set().contains(q.0) && e.to_set().contains(q.1));
            assert(e.contains(q.0) && e.contains(q.1));
        }
        assert(pair_set(*pairs) =~= old_pairs.union(pairs_of(set)));
    }
    None
}

/// Two different sets of two elements share at most one element.
proof fn lemma_pairs_meet_once(s1: Set<u32>, s2: Set<u32>, x: u32, y: u32)
    requires
        s1.finite(),
        s2.finite(),
        s1.len() == 2,
        s2.len() == 2,
        s1 != s2,
        s1.contains(x),
        s1.contains(y),
        s2.contains(x),
        s2.contains(y),
    ensures
        x == y,
{
    if x != y {
        let t = Set::empty().insert(x).insert(y);
        assert(t.len() == 2);
        assert(t.subset_of(s1));
        assert(t.subset_of(s2));
        vstd::set_lib::lemma_subset_equality(t, s1);
        vstd::set_lib::lemma_subset_equality(t, s2);
    }
}

/// Under `max_phi_weak`, `p` fits `o` exactly when `p * (p - 1) + 1 <= o`, or `p == o`.
proof fn lemma_weak_bound(o: int, p: int, weak: int)
    requires
        o > 1,
        p > 1,
        o == 2 ==> weak == 2,
        o != 2 ==> weak >= 1 && weak * (weak - 1) + 1 <= o < weak * (weak + 1) + 1,
    ensures
        (p == o || p <= weak) <==> (p == o || p * (p - 1) + 1 <= o),
        (p == o || p * (p - 1) + 1 <= o) ==> p <= o && p * (p - 1) <= o * (o - 1),
{
    if o == 2 {
        assert(p * (p - 1) >= 2) by (nonlinear_arith)
            requires
                p >= 2,
        ;
    } else {
        if p <= weak {
            assert(p * (p - 1) <= weak * (weak - 1)) by (nonlinear_arith)
                requires
                    1 <= p <= weak,
            ;
        } else {
            assert(p * (p - 1) >= (weak + 1) * weak) by (nonlinear_arith)
                requires
                    p >= weak + 1,
                    weak >= 1,
            ;
        }
    }
    if p * (p - 1) + 1 <= o {
        assert(p <= p * (p - 1) + 1) by (nonlinear_arith)
            requires
                p >= 2,
        ;
    }
    if p <= o {
        assert(p * (p - 1) <= o * (o - 1)) by (nonlinear_arith)
            requires
                2 <= p <= o,
        ;
    }
}

impl Batches {
    /// The number of batches.
    pub fn len(&self) -> (r: usize)
        ensures
            r == self.blocks().len(),
    {
        self.sets.len()
    }

    /// Checks that the batches form a Steiner system with the collection's parameters: the
    /// parameters fit, there are as many batches as pairs of elements over pairs in a batch,
    /// every batch holds `phi` elements from `min ..= max`, and no pair lies in two batches.
    /// A pair in two batches is the one failure that is not severe.
    pub fn audit(&self) -> (r: Result<(), ValidationError>)
        requires
            self.omicron >= 1,
            self.omicron - 1 + self.min <= u32::MAX,
            audit_reaches_products(self.omicron as int, self.phi as int, self.min as int, self.max as int)
                ==> self.omicron * (self.omicron - 1) <= u32::MAX,
        ensures
            r is Ok <==> self.is_steiner_system(),
            r matches Err(e) ==> (e.severe ==> shape_failure(
                self.omicron as int,
                self.phi as int,
                self.min as int,
                self.max as int,
                self.blocks(),
            )),
            r matches Err(e) ==> (!e.severe ==> header_ok(
                self.omicron as int,
                self.phi as int,
                self.min as int,
                self.max as int,
            ) && count_ok(self.omicron as int, self.phi as int, self.blocks()) && !meet_at_most_once(
                self.blocks(),
            )),
            self.blocks().finite() ==> (header_message(self.omicron, self.phi, self.min, self.max, self.blocks().len())
                matches Some(m) ==> r matches Err(e) && e.severe && e.err@ == m),
            r matches Err(e) ==> (e.severe && self.blocks().finite() && header_message(
                self.omicron,
                self.phi,
                self.min,
                self.max,
                self.blocks().len(),
            ) is None ==> exists|b: Set<u32>, v: Seq<u32>|
                #![trigger self.blocks().contains(b), set_message(v, self.min, self.max, self.phi, self.omicron)]
                self.blocks().contains(b) && increasing(v) && v.to_set() == b && set_message(
                    v,
                    self.min,
                    self.max,
                    self.phi,
                    self.omicron,
                ) == Some(e.err@)),
            r matches Err(e) ==> (!e.severe ==> exists|x: u32, y: u32, s1: Set<u32>, s2: Set<u32>|
                #![trigger self.blocks().contains(s1), self.blocks().contains(s2), s1.contains(x), s2.contains(y)]
                x < y && self.blocks().contains(s1) && self.blocks().contains(s2) && s1 != s2 && s1.contains(x)
                    && s1.contains(y) && s2.contains(x) && s2.contains(y) && e.err@ == pair_message(
                    x,
                    y,
                    self.min,
                    self.max,
                    self.phi,
                    self.omicron,
                )),
    {
        let o = self.omicron;
        let p = self.phi;
        let ghost sets = self.blocks();
        if o - 1 + self.min != self.max {
            return Err(header_error("Phi is too small. ", self));
        }
        if p <= 1 {
            return Err(header_error("Phi is too small. ", self));
        }
        if o <= 1 {
            return Err(header_error("Omicron is too small. ", self));
        }
        let weak = o.max_phi_weak();
        proof {
            lemma_weak_bound(o as int, p as int, weak as int);
        }
        if p != o && p > weak {
            let mut err = String::from_str("phi is too large. phi = ");
            push_decimal(&mut err, p as u64);
            err.append("; omicron = ");
            push_decimal(&mut err, o as u64);
            return Err(ValidationError { err, severe: true });
        }
        if (o - 1) % (p - 1) != 0 {
            let mut err = String::from_str("Non-integral number of appearances of each element. ");
            push_phi_omicron_min_max(&mut err, self);
            err.append("; computed lambda = ");
            push_decimal(&mut err, ((o - 1) / (p - 1)) as u64);
            return Err(ValidationError { err, severe: true });
        }
        let pp = p * (p - 1);
        let oo = o * (o - 1);
        assert(pp > 0) by (nonlinear_arith)
            requires
                pp == p * (p - 1),
                p > 1,
        ;
        let count = self.sets.len();
        if oo % pp != 0 {
            let mut err = String::from_str(
                "Correct number of batches is non-integral for the given phi and omicron. ",
            );
            push_phi_omicron_min_max(&mut err, self);
            err.append("; expected len: ");
            push_decimal(&mut err, oo as u64);
            err.append("/");
            push_decimal(&mut err, pp as u64);
            err.append("; actual len: ");
            push_decimal(&mut err, count as u64);
            return Err(ValidationError { err, severe: true });
        }
        let all = self.sets.to_vec();
        proof {
            assert forall|s: Set<u32>| sets.contains(s) implies all@.map_values(|b: BTreeSet<u32>| b@).to_set().contains(s) by {
                let i = choose|i: int| 0 <= i < all.len() && #[trigger] all[i]@ == s;
                assert(all@.map_values(|b: BTreeSet<u32>| b@)[i] == s);
            }
            vstd::set_lib::lemma_len_subset(sets, all@.map_values(|b: BTreeSet<u32>| b@).to_set());
            assert(sets.finite()) by {
                vstd::set_lib::lemma_set_subset_finite(all@.map_values(|b: BTreeSet<u32>| b@).to_set(), sets);
            }
        }
        if count != (oo / pp) as usize {
            let mut err = String::from_str("The number of batches is incorrect. ");
            push_phi_omicron_min_max(&mut err, self);
            err.append("; expected len: ");
            push_decimal(&mut err, (oo / pp) as u64);
            err.append("; actual len: ");
            push_decimal(&mut err, count as u64);
            return Err(ValidationError { err, severe: true });
        }
        if p == 2 {
            let mut k: usize = 0;
            while k < all.len()
                invariant
                    0 <= k <= all.len(),
                    p == 2,
                    p == self.phi,
                    header_message(self.omicron, self.phi, self.min, self.max, self.blocks().len()) is None,
                    sets == self.blocks(),
                    forall|i: int| 0 <= i < all.len() ==> sets.contains(#[trigger] all[i]@),
                    forall|s: Set<u32>| sets.contains(s) ==> exists|i: int| 0 <= i < all.len() && #[trigger] all[i]@ == s,
                    forall|i: int| 0 <= i < k ==> (#[trigger] all[i]@).finite() && all[i]@.len() == 2 && forall|x: u32|
                        #[trigger] all[i]@.contains(x) ==> self.min <= x <= self.max,
                decreases all.len() - k,
            {
                let elems = set_elements(&all[k]);
                if let Some(e) = check_set(self, &all[k], &elems) {
                    return Err(e);
                }
                k += 1;
            }
            proof {
                assert forall|s1: Set<u32>, s2: Set<u32>, x: u32, y: u32|
                    #![trigger sets.contains(s1), sets.contains(s2), s1.contains(x), s2.contains(y)]
                    sets.contains(s1) && sets.contains(s2) && s1 != s2 && s1.contains(x) && s1.contains(y)
                        && s2.contains(x) && s2.contains(y) implies x == y by {
                    let i = choose|i: int| 0 <= i < all.len() && #[trigger] all[i]@ == s1;
                    let j = choose|j: int| 0 <= j < all.len() && #[trigger] all[j]@ == s2;
                    lemma_pairs_meet_once(s1, s2, x, y);
                }
            }
            return Ok(());
        }
        if count == 1 {
            let elems = set_elements(&all[0]);
            if let Some(e) = check_set(self, &all[0], &elems) {
                return Err(e);
            }
        }
        let pair_count = (oo as usize) / 2;
        let mut pairs = PairSet::with_capacity(pair_count);
        let mut k: usize = 0;
        while k < all.len()
            invariant
                0 <= k <= all.len(),
                p == self.phi,
                sets == self.blocks(),
                header_ok(self.omicron as int, p as int, self.min as int, self.max as int),
                count_ok(self.omicron as int, p as int, sets),
                forall|i: int| 0 <= i < all.len() ==> sets.contains(#[trigger] all[i]@),
                forall|s: Set<u32>| sets.contains(s) ==> exists|i: int| 0 <= i < all.len() && #[trigger] all[i]@ == s,
                forall|i: int, j: int| 0 <= i < j < all.len() ==> all[i]@ != all[j]@,
                forall|i: int| 0 <= i < k ==> (#[trigger] all[i]@).finite() && all[i]@.len() == p && forall|x: u32|
                    #[trigger] all[i]@.contains(x) ==> self.min <= x <= self.max,
                forall|i: int, j: int, x: u32, y: u32|
                    #![trigger all[i]@.contains(x), all[j]@.contains(y)]
                    0 <= i < k && 0 <= j < k && i != j && all[i]@.contains(x) && all[i]@.contains(y)
                        && all[j]@.contains(x) && all[j]@.contains(y) ==> x == y,
                forall|pr: (u32, u32)| #[trigger] pair_set(pairs).contains(pr) ==> exists|i: int|
                    0 <= i < k && #[trigger] pairs_of(all[i]@).contains(pr),
                forall|i: int, pr: (u32, u32)|
                    0 <= i < k && #[trigger] pairs_of(all[i]@).contains(pr) ==> pair_set(pairs).contains(pr),
            decreases all.len() - k,
        {
            let elems = set_elements(&all[k]);
            if let Some(e) = check_set(self, &all[k], &elems) {
                return Err(e);
            }
            let ghost before = pair_set(pairs);
            let found = insert_pairs(&mut pairs, &elems, Ghost(all[k as int]@));
            match found {
                Some(pr) => {
                    proof {
                        let i = choose|i: int| 0 <= i < k && #[trigger] pairs_of(all[i]@).contains(pr);
                        assert(all[i as int]@ != all[k as int]@) by {
                            if i < k {
                                assert(all[i]@ != all[k as int]@);
                            }
                        }
                        assert(sets.contains(all[i]@));
                        assert(sets.contains(all[k as int]@));
                        assert(all[i]@.contains(pr.0) && all[k as int]@.contains(pr.1));
                        assert(all[i]@.contains(pr.1) && all[k as int]@.contains(pr.0));
                        assert(pr.0 < pr.1);
                    }
                    let mut err = String::from_str("Pair appears at least twice. pair = (");
                    push_decimal(&mut err, pr.0 as u64);
                    err.append(", ");
                    push_decimal(&mut err, pr.1 as u64);
                    err.append("); ");
                    push_min_max_phi_omicron(&mut err, self);
                    return Err(ValidationError { err, severe: false });
                },
                None => {},
            }
            proof {
                let cur = all[k as int]@;
                assert forall|i: int, j: int, x: u32, y: u32|
                    #![trigger all[i]@.contains(x), all[j]@.contains(y)]
                    0 <= i < k + 1 && 0 <= j < k + 1 && i != j && all[i]@.contains(x) && all[i]@.contains(y)
                        && all[j]@.contains(x) && all[j]@.contains(y) implies x == y by {
                    if (i == k || j == k) && x != y {
                        let other = if i == k { j } else { i };
                        let pr = ordered_pair(x, y);
                        assert(pairs_of(all[other]@).contains(pr));
                        assert(pairs_of(cur).contains(pr));
                        assert(before.contains(pr));
                    }
                }
                assert forall|pr: (u32, u32)| #[trigger] pair_set(pairs).contains(pr) implies exists|i: int|
                    0 <= i < k + 1 && #[trigger] pairs_of(all[i]@).contains(pr) by {
                    if !before.contains(pr) {
                        assert(pairs_of(cur).contains(pr));
                    }
                }
            }
            k += 1;
        }
        proof {
            assert forall|s: Set<u32>| #[trigger] sets.contains(s) implies s.finite() && s.len() == p && forall|x: u32|
                #[trigger] s.contains(x) ==> self.min <= x <= self.max by {
                let i = choose|i: int| 0 <= i < all.len() && #[trigger] all[i]@ == s;
            }
            assert forall|s1: Set<u32>, s2: Set<u32>, x: u32, y: u32|
                #![trigger sets.contains(s1), sets.contains(s2), s1.contains(x), s2.contains(y)]
                sets.contains(s1) && sets.contains(s2) && s1 != s2 && s1.contains(x) && s1.contains(y)
                    && s2.contains(x) && s2.contains(y) implies x == y by {
                let i = choose|i: int| 0 <= i < all.len() && #[trigger] all[i]@ == s1;
                let j = choose|j: int| 0 <= j < all.len() && #[trigger] all[j]@ == s2;
                assert(all[i]@.contains(x) && all[j]@.contains(y));
            }
        }
        Ok(())
    }
}

/// The set of the three elements `a`, `b` and `c`.
pub open spec fn triple_of(a: int, b: int, c: int) -> Set<u32> {
    Set::new(|x: u32| x == a || x == b || x == c)
}

/// A table's triple at cell `(i, j)`, when the cell holds the triple's largest element.
pub open spec fn owns_triple(t: Seq<Seq<Option<usize>>>, i: int, j: int) -> bool {
    &&& 0 <= j < i < t.len()
    &&& t[i][j] matches Some(e) && e > i
}

/// The triples that a table holds, each taken at the cell of its two smallest elements.
pub open spec fn table_triples(t: Seq<Seq<Option<usize>>>) -> Set<Set<u32>> {
    Set::new(
        |s: Set<u32>|
            exists|i: int, j: int| #[trigger] owns_triple(t, i, j) && s == triple_of(i, j, t[i][j]->0 as int),
    )
}

/// The triples that a table holds at the cells before `(i, j)`, row by row.
spec fn triples_before(t: Seq<Seq<Option<usize>>>, i: int, j: int) -> Set<Set<u32>> {
    Set::new(
        |s: Set<u32>|
            exists|a: int, b: int|
                (a < i || (a == i && b < j)) && #[trigger] owns_triple(t, a, b) && s == triple_of(a, b, t[a][b]->0 as int),
    )
}

impl Batches {
    /// How many batches each element lies in: `(omicron - 1) / (phi - 1)`.
    pub fn lambda(&self) -> (r: u32)
        requires
            self.omicron >= 1,
            self.phi >= 2,
        ensures
            r == (self.omicron - 1) / (self.phi - 1),
    {
        (self.omicron - 1) / (self.phi - 1)
    }

    /// The number of pairs of elements: `omicron * (omicron - 1) / 2`.
    pub fn pairs(&self) -> (r: usize)
        requires
            self.omicron >= 1,
            self.omicron * (self.omicron - 1) <= usize::MAX,
        ensures
            r == self.omicron * (self.omicron - 1) / 2,
    {
        self.omicron as usize * (self.omicron as usize - 1) / 2
    }

    /// The triples of a full table as batches of three on `0 ..< omicron`.
    pub fn from(value: TriplesArray) -> (r: Batches)
        requires
            value.wf(),
            1 <= value.table().len() <= u32::MAX,
            forall|i: int, j: int| 0 <= j < i < value.table().len() ==> #[trigger] value.table()[i][j] is Some,
        ensures
            r.omicron == value.table().len(),
            r.phi == 3,
            r.min == 0,
            r.max == value.table().len() - 1,
            r.blocks() == table_triples(value.table()),
            consistent(value.table()) ==> shapes_ok(3, 0, r.max as int, r.blocks()) && meet_at_most_once(
                r.blocks(),
            ),
            consistent(value.table()) && value.table().len() >= 3 ==> r.is_steiner_system(),
    {
        let ghost t = value.table();
        proof {
            if consistent(t) {
                law_consistent_table_triples(t);
                if t.len() >= 3 {
                    law_full_table_is_steiner(t);
                }
            }
        }
        let n = value.len();
        let omicron = n as u32;
        let mut sets = hashset(n);
        let mut i: usize = 1;
        proof {
            assert(batch_sets(sets) =~= triples_before(t, 1, 0));
        }
        while i < n
            invariant
                1 <= i <= n,
                n == t.len(),
                t == value.table(),
                value.wf(),
                n <= u32::MAX,
                batch_sets(sets) == triples_before(t, i as int, 0),
            decreases n - i,
        {
            let mut j: usize = 0;
            while j < i
                invariant
                    1 <= i < n,
                    0 <= j <= i,
                    n == t.len(),
                    t == value.table(),
                    value.wf(),
                    n <= u32::MAX,
                    batch_sets(sets) == triples_before(t, i as int, j as int),
                decreases i - j,
            {
                let ghost before = batch_sets(sets);
                if value.is_first_in_triple(Some((i, j))) {
                    let triple = match value.get_triple(Some((i, j))) {
                        Some(tr) => tr,
                        None => (0, 0, 0),
                    };
                    let ghost e = t[i as int][j as int]->0;
                    proof {
                        assert(t[i as int].len() == i);
                        assert(t[i as int][j as int] matches Some(x) ==> x < n);
                        assert(triple == descending((e, i, j)));
                        assert(triple == (e, i, j));
                    }
                    let mut set = BTreeSet::new();
                    set.insert(triple.0 as u32);
                    set.insert(triple.1 as u32);
                    set.insert(triple.2 as u32);
                    proof {
                        assert(set@ =~= triple_of(i as int, j as int, e as int));
                    }
                    sets.insert(set);
                }
                proof {
                    assert(batch_sets(sets) =~= triples_before(t, i as int, j + 1)) by {
                        assert forall|s: Set<u32>| triples_before(t, i as int, j + 1).contains(s) implies batch_sets(sets).contains(s) by {
                            let (a, b) = choose|a: int, b: int|
                                (a < i || (a == i && b < j + 1)) && #[trigger] owns_triple(t, a, b) && s == triple_of(a, b, t[a][b]->0 as int);
                            if a < i || b < j {
                                assert(before.contains(s));
                            }
                        }
                        assert forall|s: Set<u32>| batch_sets(sets).contains(s) implies triples_before(t, i as int, j + 1).contains(s) by {
                            if before.contains(s) {
                                let (a, b) = choose|a: int, b: int|
                                    (a < i || (a == i && b < j)) && #[trigger] owns_triple(t, a, b) && s == triple_of(a, b, t[a][b]->0 as int);
                            } else {
                                assert(owns_triple(t, i as int, j as int));
                            }
                        }
                    }
                }
                j += 1;
            }
            proof {
                assert(triples_before(t, i as int, i as int) =~= triples_before(t, i + 1, 0)) by {
                    assert forall|s: Set<u32>| triples_before(t, i + 1, 0).contains(s) implies triples_before(t, i as int, i as int).contains(s) by {
                        let (a, b) = choose|a: int, b: int|
                            (a < i + 1 || (a == i + 1 && b < 0)) && #[trigger] owns_triple(t, a, b) && s == triple_of(a, b, t[a][b]->0 as int);
                    }
                    assert forall|s: Set<u32>| triples_before(t, i as int, i as int).contains(s) implies triples_before(t, i + 1, 0).contains(s) by {
                        let (a, b) = choose|a: int, b: int|
                            (a < i || (a == i && b < i)) && #[trigger] owns_triple(t, a, b) && s == triple_of(a, b, t[a][b]->0 as int);
                    }
                }
            }
            i += 1;
        }
        proof {
            assert(batch_sets(sets) =~= table_triples(t)) by {
                assert forall|s: Set<u32>| table_triples(t).contains(s) implies batch_sets(sets).contains(s) by {
                    let (a, b) = choose|a: int, b: int| #[trigger] owns_triple(t, a, b) && s == triple_of(a, b, t[a][b]->0 as int);
                    assert(triples_before(t, n as int, 0).contains(s));
                }
                assert forall|s: Set<u32>| batch_sets(sets).contains(s) implies table_triples(t).contains(s) by {
                    let (a, b) = choose|a: int, b: int|
                        (a < n || (a == n && b < 0)) && #[trigger] owns_triple(t, a, b) && s == triple_of(a, b, t[a][b]->0 as int);
                }
            }
        }
        Batches { omicron, phi: 3, min: 0, max: omicron - 1, sets }
    }
}

} // verus!
