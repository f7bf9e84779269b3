use vstd::prelude::*;
use vstd::set_lib::{lemma_int_range, lemma_map_size, set_int_range};
use vstd::relations::injective_on;
use crate::batches::{count_ok, header_ok, owns_triple, steiner_system, table_triples, triple_of};
use crate::consistency::law_consistent_table_triples;
use crate::consistency::{consistent, entered, order3, seeds_kept};
use crate::progress::{walk_cell, walk_filled};
use crate::triples_array::start_row;
use crate::triples_array::table_wf;

verus! {

// Counting the triples of a full, consistent table: its cells split evenly into the cells
// that own a triple, the cells of a triple's largest and smallest elements, and those of its
// largest and middle ones.

/// The cells `(i, j)` with `0 <= j < i < n`.
pub open spec fn cells(n: int) -> Set<(int, int)> {
    Set::new(|x: (int, int)| 0 <= x.1 < x.0 < n)
}

/// The cells of row `i`.
pub open spec fn row_cells(i: int) -> Set<(int, int)> {
    Set::new(|x: (int, int)| x.0 == i && 0 <= x.1 < i)
}

/// A triangle of `n` rows has `n * (n - 1) / 2` cells.
pub proof fn lemma_cells_len(n: int)
    requires
        n >= 0,
    ensures
        cells(n).finite(),
        2 * cells(n).len() == n * (n - 1),
    decreases n,
{
    if n == 0 {
        assert(cells(0) =~= Set::empty());
    } else {
        lemma_cells_len(n - 1);
        let r = row_cells(n - 1);
        let f = |j: int| (n - 1, j);
        lemma_int_range(0, n - 1);
        assert forall|x: (int, int)| r.contains(x) implies set_int_range(0, n - 1).map(f).contains(x) by {
            assert(set_int_range(0, n - 1).contains(x.1));
            assert(f(x.1) == x);
        }
        assert(set_int_range(0, n - 1).map(f) =~= r);
        assert(injective_on(f, set_int_range(0, n - 1)));
        lemma_map_size(set_int_range(0, n - 1), r, f);
        assert(cells(n) =~= cells(n - 1) + r);
        assert(cells(n - 1).disjoint(r));
        vstd::set_lib::lemma_set_disjoint_lens(cells(n - 1), r);
        assert(2 * (n - 1) + (n - 1) * (n - 2) == n * (n - 1)) by (nonlinear_arith);
    }
}

/// Every cell below the diagonal is filled.
pub open spec fn full(t: Seq<Seq<Option<usize>>>) -> bool {
    forall|i: int, j: int| 0 <= j < i < t.len() ==> #[trigger] t[i][j] is Some
}

/// The entry of cell `x`.
pub open spec fn entry(t: Seq<Seq<Option<usize>>>, x: (int, int)) -> int {
    t[x.0][x.1]->0 as int
}

/// The cells that hold the largest element of their triple: where the triple is entered.
pub open spec fn owner_cells(t: Seq<Seq<Option<usize>>>) -> Set<(int, int)> {
    cells(t.len() as int).filter(|x: (int, int)| entry(t, x) > x.0)
}

/// The cells of a triple's largest and smallest elements, which hold its middle one.
pub open spec fn middle_cells(t: Seq<Seq<Option<usize>>>) -> Set<(int, int)> {
    cells(t.len() as int).filter(|x: (int, int)| x.1 < entry(t, x) < x.0)
}

/// The cells of a triple's largest and middle elements, which hold its smallest one.
pub open spec fn bottom_cells(t: Seq<Seq<Option<usize>>>) -> Set<(int, int)> {
    cells(t.len() as int).filter(|x: (int, int)| entry(t, x) < x.1)
}

/// From the cell that owns a triple to the cell that holds its middle element.
pub open spec fn to_middle(t: Seq<Seq<Option<usize>>>) -> spec_fn((int, int)) -> (int, int) {
    |x: (int, int)| (entry(t, x), x.1)
}

/// From the cell that owns a triple to the cell that holds its smallest element.
pub open spec fn to_bottom(t: Seq<Seq<Option<usize>>>) -> spec_fn((int, int)) -> (int, int) {
    |x: (int, int)| (entry(t, x), x.0)
}

/// The triple that a cell owns.
pub open spec fn to_triple(t: Seq<Seq<Option<usize>>>) -> spec_fn((int, int)) -> Set<u32> {
    |x: (int, int)| triple_of(x.0, x.1, entry(t, x))
}

/// Cell `x` holds neither of its own elements, and its triple is entered.
pub open spec fn cell_ok(t: Seq<Seq<Option<usize>>>, x: (int, int)) -> bool {
    let s = order3(entry(t, x), x.0, x.1);
    entry(t, x) != x.0 && entry(t, x) != x.1 && entered(t, s.0, s.1, s.2)
}

/// The cell of the pair of elements `c` and `x`: the larger one's row, the smaller one's
/// column.
pub open spec fn pair_cell(c: int, x: int) -> (int, int) {
    if x > c {
        (x, c)
    } else {
        (c, x)
    }
}

/// Every cell of a full, consistent table is `cell_ok`.
proof fn lemma_cells_ok(t: Seq<Seq<Option<usize>>>)
    requires
        consistent(t),
        full(t),
    ensures
        forall|x: (int, int)| cells(t.len() as int).contains(x) ==> #[trigger] cell_ok(t, x),
{
    assert forall|x: (int, int)| cells(t.len() as int).contains(x) implies #[trigger] cell_ok(t, x) by {
        assert(t[x.0][x.1] is Some);
    }
}

/// The cells split into owners, middles and bottoms.
proof fn lemma_partition(t: Seq<Seq<Option<usize>>>)
    requires
        forall|x: (int, int)| cells(t.len() as int).contains(x) ==> #[trigger] cell_ok(t, x),
    ensures
        cells(t.len() as int) == owner_cells(t) + middle_cells(t) + bottom_cells(t),
        owner_cells(t).disjoint(middle_cells(t)),
        (owner_cells(t) + middle_cells(t)).disjoint(bottom_cells(t)),
{
    let n = t.len() as int;
    assert forall|x: (int, int)| cells(n).contains(x) implies (owner_cells(t) + middle_cells(t) + bottom_cells(t)).contains(x) by {
        assert(cell_ok(t, x));
    }
    assert(cells(n) =~= owner_cells(t) + middle_cells(t) + bottom_cells(t));
}

/// The owners and the middles correspond one to one.
#[verifier::rlimit(30)]
proof fn lemma_middles(t: Seq<Seq<Option<usize>>>)
    requires
        t.len() <= usize::MAX,
        forall|x: (int, int)| cells(t.len() as int).contains(x) ==> #[trigger] cell_ok(t, x),
    ensures
        owner_cells(t).map(to_middle(t)) == middle_cells(t),
        injective_on(to_middle(t), owner_cells(t)),
{
    let o = owner_cells(t);
    let m = middle_cells(t);
    assert forall|x: (int, int)| o.contains(x) implies m.contains(to_middle(t)(x)) by {
        assert(cell_ok(t, x));
        assert(order3(entry(t, x), x.0, x.1) == (entry(t, x), x.0, x.1));
    }
    assert forall|y: (int, int)| m.contains(y) implies o.map(to_middle(t)).contains(y) by {
        assert(cell_ok(t, y));
        let bb = entry(t, y);
        assert(order3(bb, y.0, y.1) == (y.0, bb, y.1));
        let x = (bb, y.1);
        assert(cells(t.len() as int).contains(x));
        assert(o.contains(x));
        assert(to_middle(t)(x) == y);
    }
    assert(o.map(to_middle(t)) =~= m);
    assert forall|x1: (int, int), x2: (int, int)|
        o.contains(x1) && o.contains(x2) && #[trigger] to_middle(t)(x1) == #[trigger] to_middle(t)(x2) implies x1 == x2 by {
        assert(cell_ok(t, x1));
        assert(cell_ok(t, x2));
        assert(order3(entry(t, x1), x1.0, x1.1) == (entry(t, x1), x1.0, x1.1));
        assert(order3(entry(t, x2), x2.0, x2.1) == (entry(t, x2), x2.0, x2.1));
    }
}

/// The owners and the bottoms correspond one to one.
#[verifier::rlimit(30)]
proof fn lemma_bottoms(t: Seq<Seq<Option<usize>>>)
    requires
        t.len() <= usize::MAX,
        forall|x: (int, int)| cells(t.len() as int).contains(x) ==> #[trigger] cell_ok(t, x),
    ensures
        owner_cells(t).map(to_bottom(t)) == bottom_cells(t),
        injective_on(to_bottom(t), owner_cells(t)),
{
    let o = owner_cells(t);
    let b = bottom_cells(t);
    assert forall|x: (int, int)| o.contains(x) implies b.contains(to_bottom(t)(x)) by {
        assert(cell_ok(t, x));
        assert(order3(entry(t, x), x.0, x.1) == (entry(t, x), x.0, x.1));
    }
    assert forall|y: (int, int)| b.contains(y) implies o.map(to_bottom(t)).contains(y) by {
        assert(cell_ok(t, y));
        let c = entry(t, y);
        assert(order3(c, y.0, y.1) == (y.0, y.1, c));
        let x = (y.1, c);
        assert(cells(t.len() as int).contains(x));
        assert(o.contains(x));
        assert(to_bottom(t)(x) == y);
    }
    assert(o.map(to_bottom(t)) =~= b);
    assert forall|x1: (int, int), x2: (int, int)|
        o.contains(x1) && o.contains(x2) && #[trigger] to_bottom(t)(x1) == #[trigger] to_bottom(t)(x2) implies x1 == x2 by {
        assert(cell_ok(t, x1));
        assert(cell_ok(t, x2));
        assert(order3(entry(t, x1), x1.0, x1.1) == (entry(t, x1), x1.0, x1.1));
        assert(order3(entry(t, x2), x2.0, x2.1) == (entry(t, x2), x2.0, x2.1));
    }
}

/// A full, consistent table owns a triple at one cell in three.
proof fn lemma_owner_count(t: Seq<Seq<Option<usize>>>)
    requires
        table_wf(t),
        t.len() <= usize::MAX,
        consistent(t),
        full(t),
    ensures
        owner_cells(t).finite(),
        6 * owner_cells(t).len() == t.len() * (t.len() - 1),
{
    let n = t.len() as int;
    lemma_cells_ok(t);
    lemma_partition(t);
    lemma_middles(t);
    lemma_bottoms(t);
    lemma_cells_len(n);
    let o = owner_cells(t);
    let m = middle_cells(t);
    let b = bottom_cells(t);
    vstd::set_lib::lemma_len_subset(o, cells(n));
    lemma_map_size(o, m, to_middle(t));
    lemma_map_size(o, b, to_bottom(t));
    vstd::set_lib::lemma_set_disjoint_lens(o, m);
    vstd::set_lib::lemma_set_disjoint_lens(o + m, b);
}

/// Two owned triples that are the same set are owned at the same cell.
proof fn lemma_triple_owner(a1: int, b1: int, c1: int, a2: int, b2: int, c2: int)
    requires
        0 <= c1 < b1 < a1 <= u32::MAX,
        0 <= c2 < b2 < a2 <= u32::MAX,
        triple_of(b1, c1, a1) == triple_of(b2, c2, a2),
    ensures
        b1 == b2,
        c1 == c2,
{
    let s1 = triple_of(b1, c1, a1);
    let s2 = triple_of(b2, c2, a2);
    assert(s1.contains(c1 as u32) && s1.contains(b1 as u32) && s1.contains(a1 as u32));
    assert(s2.contains(c2 as u32) && s2.contains(b2 as u32) && s2.contains(a2 as u32));
}

/// The triples of a full, consistent table are as many as the cells that own them.
#[verifier::rlimit(40)]
proof fn lemma_triple_count(t: Seq<Seq<Option<usize>>>)
    requires
        table_wf(t),
        t.len() <= u32::MAX,
        full(t),
        forall|x: (int, int)| cells(t.len() as int).contains(x) ==> #[trigger] cell_ok(t, x),
        owner_cells(t).finite(),
    ensures
        table_triples(t).finite(),
        table_triples(t).len() == owner_cells(t).len(),
{
    let o = owner_cells(t);
    let g = to_triple(t);
    assert forall|s: Set<u32>| table_triples(t).contains(s) implies o.map(g).contains(s) by {
        let (i, j) = choose|i: int, j: int| #[trigger] owns_triple(t, i, j) && s == triple_of(i, j, t[i][j]->0 as int);
        assert(o.contains((i, j)));
        assert(g((i, j)) == s);
    }
    assert forall|s: Set<u32>| o.map(g).contains(s) implies table_triples(t).contains(s) by {
        let x = choose|x: (int, int)| o.contains(x) && g(x) == s;
        assert(owns_triple(t, x.0, x.1));
    }
    assert(o.map(g) =~= table_triples(t));
    assert forall|x1: (int, int), x2: (int, int)| o.contains(x1) && o.contains(x2) && #[trigger] g(x1) == #[trigger] g(x2) implies x1 == x2 by {
        assert(cell_ok(t, x1));
        assert(cell_ok(t, x2));
        assert(order3(entry(t, x1), x1.0, x1.1) == (entry(t, x1), x1.0, x1.1));
        assert(order3(entry(t, x2), x2.0, x2.1) == (entry(t, x2), x2.0, x2.1));
        lemma_triple_owner(entry(t, x1), x1.0, x1.1, entry(t, x2), x2.0, x2.1);
    }
    lemma_map_size(o, table_triples(t), g);
}

/// The cells of the first column, below the top.
pub open spec fn first_column(n: int) -> Set<(int, int)> {
    Set::new(|x: (int, int)| x.1 == 0 && 0 < x.0 < n)
}

/// A full, consistent table has an odd number of rows: the first column pairs up.
pub(crate) proof fn lemma_odd_rows(t: Seq<Seq<Option<usize>>>)
    requires
        t.len() <= usize::MAX,
        t.len() >= 1,
        consistent(t),
        full(t),
    ensures
        (t.len() - 1) % 2 == 0,
{
    let n = t.len() as int;
    lemma_cells_ok(t);
    lemma_middles(t);
    let c0 = first_column(n);
    let o0 = owner_cells(t).filter(|x: (int, int)| x.1 == 0);
    let m0 = middle_cells(t).filter(|x: (int, int)| x.1 == 0);
    let f = |j: int| (j, 0int);
    lemma_int_range(1, n);
    assert forall|x: (int, int)| c0.contains(x) implies set_int_range(1, n).map(f).contains(x) by {
        assert(set_int_range(1, n).contains(x.0));
        assert(f(x.0) == x);
    }
    assert(set_int_range(1, n).map(f) =~= c0);
    assert(injective_on(f, set_int_range(1, n)));
    lemma_map_size(set_int_range(1, n), c0, f);
    assert forall|x: (int, int)| c0.contains(x) implies (o0 + m0).contains(x) by {
        assert(cells(n).contains(x));
        assert(cell_ok(t, x));
    }
    assert(c0 =~= o0 + m0);
    vstd::set_lib::lemma_len_subset(o0, c0);
    vstd::set_lib::lemma_len_subset(m0, c0);
    assert(o0.disjoint(m0));
    vstd::set_lib::lemma_set_disjoint_lens(o0, m0);
    let g = to_middle(t);
    assert forall|y: (int, int)| m0.contains(y) implies o0.map(g).contains(y) by {
        assert(owner_cells(t).map(g).contains(y));
        let x = choose|x: (int, int)| owner_cells(t).contains(x) && g(x) == y;
        assert(o0.contains(x));
    }
    assert(o0.map(g) =~= m0);
    assert(injective_on(g, o0));
    lemma_map_size(o0, m0, g);
}

/// The triples of a full, consistent table on three or more elements form a Steiner triple
/// system on them.
pub proof fn law_full_table_is_steiner(t: Seq<Seq<Option<usize>>>)
    requires
        table_wf(t),
        3 <= t.len() <= u32::MAX,
        consistent(t),
        full(t),
    ensures
        steiner_system(t.len() as int, 3, 0, t.len() - 1, table_triples(t)),
{
    let n = t.len() as int;
    law_consistent_table_triples(t);
    lemma_owner_count(t);
    lemma_cells_ok(t);
    lemma_triple_count(t);
    lemma_odd_rows(t);
    let k = table_triples(t).len() as int;
    assert(6 * k == n * (n - 1));
    assert((n * (n - 1)) % 6 == 0 && (n * (n - 1)) / 6 == k) by {
        vstd::arithmetic::div_mod::lemma_fundamental_div_mod_converse(n * (n - 1), 6, k, 0);
    }
    assert(n == 3 || 7 <= n) by {
        if n == 5 {
            assert(n * (n - 1) == 20) by (nonlinear_arith)
                requires
                    n == 5,
            ;
        }
    }
    assert(3 * (3 - 1) == 6);
}

/// A finite set that a function pairs off, each element with another one that it maps back,
/// has an even number of elements.
pub proof fn lemma_involution_even(s: Set<int>, f: spec_fn(int) -> int)
    requires
        s.finite(),
        forall|x: int| #[trigger] s.contains(x) ==> s.contains(f(x)) && f(x) != x && f(f(x)) == x,
    ensures
        s.len() % 2 == 0,
    decreases s.len(),
{
    if s.len() > 0 {
        let x = s.choose();
        let y = f(x);
        let rest = s.remove(x).remove(y);
        assert forall|z: int| #[trigger] rest.contains(z) implies rest.contains(f(z)) && f(z) != z && f(f(z)) == z by {
            assert(s.contains(z));
            if f(z) == x {
                assert(f(f(z)) == f(x));
            }
            if f(z) == y {
                assert(f(f(z)) == f(y));
            }
        }
        lemma_involution_even(rest, f);
    }
}

/// In a table whose visited cells are filled and whose fresh triples stay, on an odd number of
/// elements, every cell above the last row is filled, and so is the first cell of the last row.
proof fn lemma_upper_rows(t: Seq<Seq<Option<usize>>>)
    requires
        table_wf(t),
        t.len() < usize::MAX,
        walk_filled(t),
        seeds_kept(t),
        t.len() % 2 == 1,
        t.len() >= 3,
    ensures
        forall|r: int, c: int| 0 <= c < r <= t.len() - 2 ==> #[trigger] t[r][c] is Some,
        t[t.len() - 1][0] is Some,
{
    let n = t.len() as int;
    assert forall|r: int, c: int| 0 <= c < r <= n - 2 implies #[trigger] t[r][c] is Some by {
        if c == 0 {
            if r % 2 == 0 {
                let k = r / 2;
                assert(entered(t, 2 * k, 2 * k - 1, 0));
            } else {
                let k = (r + 1) / 2;
                assert(entered(t, 2 * k, 2 * k - 1, 0));
            }
        } else if r >= start_row(c) {
            assert(walk_cell(n, r, c));
        } else {
            let k = (c + 1) / 2;
            assert(entered(t, 2 * k, 2 * k - 1, 0));
        }
    }
    let k = (n - 1) / 2;
    assert(entered(t, 2 * k, 2 * k - 1, 0));
}

/// The triple through `c` and `x`, for an element `x` other than `c`, gives the third element,
/// which the same triple gives back for `c` and it.
#[verifier::rlimit(30)]
proof fn lemma_partner(t: Seq<Seq<Option<usize>>>, c: int, x: int)
    requires
        t.len() < usize::MAX,
        forall|y: int| 0 <= y <= t.len() - 2 && y != c ==> #[trigger] cell_ok(t, pair_cell(c, y)),
        t[t.len() - 1][c] is None,
        0 <= c <= t.len() - 2,
        0 <= x <= t.len() - 2,
        x != c,
    ensures
        ({
            let hi = if x > c { x } else { c };
            let lo = if x > c { c } else { x };
            let e = entry(t, (hi, lo));
            &&& 0 <= e <= t.len() - 2
            &&& e != c
            &&& e != x
            &&& (if e > c { entry(t, (e, c)) } else { entry(t, (c, e)) }) == x
        }),
{
    let n = t.len() as int;
    let hi = if x > c { x } else { c };
    let lo = if x > c { c } else { x };
    assert(cell_ok(t, pair_cell(c, x)));
    let e = entry(t, (hi, lo));
    let tr = order3(e, hi, lo);
    assert(entered(t, tr.0, tr.1, tr.2));
    if e == n - 1 {
        assert(t[n - 1][c] is Some);
    }
}

/// Where every pair of `c` with another element has its cell filled, consistently, the other
/// elements pair off through the triples of `c`, so that there is an even number of them.
pub proof fn lemma_full_column_odd(t: Seq<Seq<Option<usize>>>, c: int)
    requires
        t.len() < usize::MAX,
        0 <= c < t.len(),
        forall|y: int| 0 <= y < t.len() && y != c ==> #[trigger] cell_ok(t, pair_cell(c, y)),
    ensures
        t.len() % 2 == 1,
{
    let n = t.len() as int;
    let s = set_int_range(0, n).remove(c);
    let f = |x: int| entry(t, pair_cell(c, x));
    assert forall|x: int| #[trigger] s.contains(x) implies s.contains(f(x)) && f(x) != x && f(f(x)) == x by {
        assert(cell_ok(t, pair_cell(c, x)));
        let e = f(x);
        let q = pair_cell(c, x);
        let tr = order3(e, q.0, q.1);
        assert(entered(t, tr.0, tr.1, tr.2));
    }
    lemma_int_range(0, n);
    assert(set_int_range(0, n).contains(c));
    lemma_involution_even(s, f);
}

/// In such a table, consistent as well, the last row is filled too: the elements other than
/// `c` and the last pair off through the triples of `c`, and there is an odd number of them.
pub(crate) proof fn lemma_last_row(t: Seq<Seq<Option<usize>>>, c: int)
    requires
        t.len() < usize::MAX,
        forall|y: int| 0 <= y <= t.len() - 2 && y != c ==> #[trigger] cell_ok(t, pair_cell(c, y)),
        t.len() % 2 == 1,
        t.len() >= 3,
        1 <= c <= t.len() - 2,
    ensures
        t[t.len() - 1][c] is Some,
{
    let n = t.len() as int;
    if t[n - 1][c] is None {
        let s = set_int_range(0, n).remove(c).remove(n - 1);
        let f = |x: int| if x > c { entry(t, (x, c)) } else { entry(t, (c, x)) };
        assert forall|x: int| #[trigger] s.contains(x) implies s.contains(f(x)) && f(x) != x && f(f(x)) == x by {
            lemma_partner(t, c, x);
        }
        lemma_int_range(0, n);
        assert(set_int_range(0, n).contains(c));
        assert(set_int_range(0, n).remove(c).contains(n - 1));
        lemma_involution_even(s, f);
    }
}

/// A table whose visited cells are filled, whose fresh triples stay, and which is consistent,
/// on an odd number of elements from `3` on, is full, and its triples form a Steiner triple
/// system: what a search that succeeds leaves.
pub proof fn law_finished_search_is_steiner(t: Seq<Seq<Option<usize>>>)
    requires
        table_wf(t),
        t.len() < usize::MAX,
        t.len() <= u32::MAX,
        consistent(t),
        seeds_kept(t),
        walk_filled(t),
        t.len() % 2 == 1,
        t.len() >= 3,
    ensures
        full(t),
        steiner_system(t.len() as int, 3, 0, t.len() - 1, table_triples(t)),
{
    let n = t.len() as int;
    lemma_upper_rows(t);
    assert forall|r: int, d: int| 0 <= d < r <= n - 2 implies #[trigger] cell_ok(t, (r, d)) by {
        assert(t[r][d] is Some);
    }
    assert forall|i: int, j: int| 0 <= j < i < n implies #[trigger] t[i][j] is Some by {
        if i == n - 1 && j >= 1 {
            assert forall|y: int| 0 <= y <= n - 2 && y != j implies #[trigger] cell_ok(t, pair_cell(j, y)) by {
                if y > j {
                    assert(cell_ok(t, (y, j)));
                } else {
                    assert(cell_ok(t, (j, y)));
                }
            }
            lemma_last_row(t, j);
        }
    }
    law_full_table_is_steiner(t);
}

} // verus!
