use vstd::prelude::*;
use crate::batches::{meet_at_most_once, owns_triple, shapes_ok, table_triples, triple_of};
use crate::triples_array::{
    before, cell, in_col, in_row, initial_cell, max3, min3, next_cell, prev_cell, row_start, start_row,
    table_wf, walk, with_triple, lemma_with_triple, holds,
};

verus! {

// What the search for Steiner triple systems keeps of its table: every entry belongs to a
// triple entered in all three of its cells, the triples of a fresh table stay, and every other
// triple was entered at a cell the search has reached.

/// The triple `{a, b, c}`, with `a > b > c`, is entered: cell `(a, b)` holds `c`, cell
/// `(a, c)` holds `b` and cell `(b, c)` holds `a`.
pub open spec fn entered(t: Seq<Seq<Option<usize>>>, a: int, b: int, c: int) -> bool {
    &&& 0 <= c < b < a < t.len()
    &&& t[a][b] == Some(c as usize)
    &&& t[a][c] == Some(b as usize)
    &&& t[b][c] == Some(a as usize)
}

/// Three numbers from largest to smallest.
pub open spec fn order3(x: int, y: int, z: int) -> (int, int, int) {
    let hi = max3(x, y, z);
    let lo = min3(x, y, z);
    (hi, x + y + z - hi - lo, lo)
}

/// Every filled cell `(i, j)` holds an element `e` other than `i` and `j`, and the triple
/// `{e, i, j}` is entered.
pub open spec fn consistent(t: Seq<Seq<Option<usize>>>) -> bool {
    forall|i: int, j: int|
        0 <= j < i < t.len() && #[trigger] t[i][j] is Some ==> {
            let e = t[i][j]->0 as int;
            let s = order3(e, i, j);
            e != i && e != j && entered(t, s.0, s.1, s.2)
        }
}

/// Every triple of the table that does not hold element `0` was entered at the cell of its two
/// smallest elements, and that cell is `p` or comes before it in the search's order.
pub open spec fn owned_upto(t: Seq<Seq<Option<usize>>>, p: (usize, usize)) -> bool {
    forall|i: int, j: int|
        0 <= j < i < t.len() && #[trigger] t[i][j] is Some ==> {
            let s = order3(t[i][j]->0 as int, i, j);
            s.2 == 0 || before((s.1, s.2), (p.0 as int, p.1 as int)) || (s.1 == p.0 && s.2 == p.1)
        }
}

/// No triple of the table is entered at cell `q`.
pub open spec fn unowned_at(t: Seq<Seq<Option<usize>>>, q: (usize, usize)) -> bool {
    forall|i: int, j: int|
        0 <= j < i < t.len() && #[trigger] t[i][j] is Some ==> {
            let s = order3(t[i][j]->0 as int, i, j);
            !(s.1 == q.0 && s.2 == q.1)
        }
}

/// The triples `{2 * k, 2 * k - 1, 0}` with `2 * k < n` of a fresh table are in place.
pub open spec fn seeds_kept(t: Seq<Seq<Option<usize>>>) -> bool {
    forall|k: int| 1 <= k && 2 * k < t.len() ==> #[trigger] entered(t, 2 * k, 2 * k - 1, 0)
}

/// The table is consistent, keeps the fresh table's triples, and owns its other triples at or
/// before `p`.
pub open spec fn sound(t: Seq<Seq<Option<usize>>>, p: (usize, usize)) -> bool {
    &&& consistent(t)
    &&& seeds_kept(t)
    &&& owned_upto(t, p)
}

/// A fresh table is sound at the search's starting cell `(3, 1)`.
pub proof fn lemma_fresh_sound(t: Seq<Seq<Option<usize>>>)
    requires
        table_wf(t),
        t.len() < usize::MAX,
        forall|i: int, j: int| 0 <= j < i < t.len() ==> #[trigger] t[i][j] == initial_cell(t.len() as int, i, j),
    ensures
        sound(t, (3usize, 1usize)),
{
    let n = t.len() as int;
    assert forall|k: int| 1 <= k && 2 * k < n implies #[trigger] entered(t, 2 * k, 2 * k - 1, 0) by {
        assert(t[2 * k][2 * k - 1] == initial_cell(n, 2 * k, 2 * k - 1));
        assert(t[2 * k][0] == initial_cell(n, 2 * k, 0));
        assert(t[2 * k - 1][0] == initial_cell(n, 2 * k - 1, 0));
    }
    assert forall|i: int, j: int| 0 <= j < i < n && #[trigger] t[i][j] is Some implies {
        let e = t[i][j]->0 as int;
        let s = order3(e, i, j);
        &&& e != i && e != j && entered(t, s.0, s.1, s.2)
        &&& s.2 == 0
    } by {
        assert(t[i][j] == initial_cell(n, i, j));
        if j == 0 {
            if i % 2 == 0 {
                let k = i / 2;
                assert(2 * k == i);
                assert(t[i][j]->0 == i - 1);
                assert(order3(i - 1, i, 0) == (i, i - 1, 0int));
                assert(entered(t, 2 * k, 2 * k - 1, 0));
            } else {
                let k = (i + 1) / 2;
                assert(2 * k == i + 1);
                assert(t[i][j]->0 == i + 1);
                assert(order3(i + 1, i, 0) == (i + 1, i, 0int));
                assert(entered(t, 2 * k, 2 * k - 1, 0));
            }
        } else {
            let k = i / 2;
            assert(i % 2 == 0 && j == i - 1);
            assert(2 * k == i);
            assert(t[i][j]->0 == 0);
            assert(order3(0, i, i - 1) == (i, i - 1, 0int));
            assert(entered(t, 2 * k, 2 * k - 1, 0));
        }
    }
}

/// Walking forward over filled cells keeps every owner at or before the pointer.
pub proof fn lemma_walk_owned(t: Seq<Seq<Option<usize>>>, p: (usize, usize), k: nat)
    requires
        table_wf(t),
        t.len() < usize::MAX,
        owned_upto(t, p),
        forall|j: nat| j < k ==> #[trigger] cell(t, walk(t.len() as int, p, j)) is Some,
    ensures
        owned_upto(t, walk(t.len() as int, p, k)),
    decreases k,
{
    if k > 0 {
        let n = t.len() as int;
        assert(cell(t, walk(n, p, 0)) is Some);
        assert(p.1 < p.0 < n) by {
            assert(t[p.0 as int].len() == p.0);
        }
        let q = next_cell(n, p);
        assert(owned_upto(t, q)) by {
            assert forall|i: int, j: int| 0 <= j < i < t.len() && #[trigger] t[i][j] is Some implies {
                let s = order3(t[i][j]->0 as int, i, j);
                s.2 == 0 || before((s.1, s.2), (q.0 as int, q.1 as int)) || (s.1 == q.0 && s.2 == q.1)
            } by {
                let s = order3(t[i][j]->0 as int, i, j);
                if p.0 == n - 2 {
                    assert(q.1 == p.1 + 1);
                } else {
                    assert(q.0 == p.0 + 1 && q.1 == p.1);
                }
            }
        }
        assert forall|j: nat| j < k - 1 implies #[trigger] cell(t, walk(n, q, j)) is Some by {
            assert(walk(n, p, j + 1) == walk(n, q, j));
            assert(cell(t, walk(n, p, j + 1)) is Some);
        }
        lemma_walk_owned(t, q, (k - 1) as nat);
        assert(walk(n, p, k) == walk(n, q, (k - 1) as nat));
    }
}

/// Each cell of an entered triple names the triple: its entry and its place, ordered.
pub proof fn lemma_cell_names_triple(t: Seq<Seq<Option<usize>>>, a: int, b: int, c: int)
    requires
        entered(t, a, b, c),
        t.len() <= usize::MAX,
    ensures
        order3(t[a][b]->0 as int, a, b) == (a, b, c),
        order3(t[a][c]->0 as int, a, c) == (a, b, c),
        order3(t[b][c]->0 as int, b, c) == (a, b, c),
{
}

/// One of the three cells of the triple `{a > b > c}`.
pub open spec fn cell_of(a: int, b: int, c: int, r: int, q: int) -> bool {
    (r == a && q == b) || (r == a && q == c) || (r == b && q == c)
}

/// Setting the cells of a triple that were empty, or clearing those of an entered triple,
/// leaves every other entered triple entered.
proof fn lemma_entered_kept(t: Seq<Seq<Option<usize>>>, s: (usize, usize, usize), clear: bool, a: int, b: int, c: int)
    requires
        table_wf(t),
        t.len() <= usize::MAX,
        s.2 < s.1 < s.0 < t.len(),
        entered(t, a, b, c),
        !(a == s.0 && b == s.1 && c == s.2),
        clear ==> entered(t, s.0 as int, s.1 as int, s.2 as int),
        !clear ==> t[s.0 as int][s.1 as int] is None && t[s.0 as int][s.2 as int] is None && t[s.1 as int][s.2 as int] is None,
    ensures
        entered(with_triple(t, s, clear), a, b, c),
{
    lemma_with_triple(t, s, clear);
    lemma_cell_names_triple(t, a, b, c);
    if clear {
        lemma_cell_names_triple(t, s.0 as int, s.1 as int, s.2 as int);
        assert(!cell_of(s.0 as int, s.1 as int, s.2 as int, a, b));
        assert(!cell_of(s.0 as int, s.1 as int, s.2 as int, a, c));
        assert(!cell_of(s.0 as int, s.1 as int, s.2 as int, b, c));
    }
}

/// Entering a triple in three empty cells keeps the table consistent and its fresh triples;
/// every other filled cell keeps its entry.
#[verifier::spinoff_prover]
#[verifier::rlimit(90)]
pub proof fn lemma_enter_keeps(t: Seq<Seq<Option<usize>>>, st: (usize, usize, usize))
    requires
        table_wf(t),
        t.len() < usize::MAX,
        consistent(t),
        seeds_kept(t),
        st.2 < st.1 < st.0 < t.len(),
        t[st.0 as int][st.1 as int] is None,
        t[st.0 as int][st.2 as int] is None,
        t[st.1 as int][st.2 as int] is None,
    ensures
        consistent(with_triple(t, st, false)),
        seeds_kept(with_triple(t, st, false)),
{
    let a = st.0 as int;
    let b = st.1 as int;
    let c = st.2 as int;
    lemma_with_triple(t, st, false);
    let u = with_triple(t, st, false);
    assert(entered(u, a, b, c));
    assert forall|i: int, j: int| 0 <= j < i < u.len() && #[trigger] u[i][j] is Some implies {
        let e = u[i][j]->0 as int;
        let s = order3(e, i, j);
        e != i && e != j && entered(u, s.0, s.1, s.2)
    } by {
        if cell_of(a, b, c, i, j) {
            lemma_cell_names_triple(u, a, b, c);
        } else {
            assert(u[i][j] == t[i][j]);
            let e = t[i][j]->0 as int;
            let s = order3(e, i, j);
            assert(entered(t, s.0, s.1, s.2));
            lemma_entered_kept(t, st, false, s.0, s.1, s.2);
        }
    }
    assert forall|k: int| 1 <= k && 2 * k < u.len() implies #[trigger] entered(u, 2 * k, 2 * k - 1, 0) by {
        assert(entered(t, 2 * k, 2 * k - 1, 0));
        lemma_entered_kept(t, st, false, 2 * k, 2 * k - 1, 0);
    }
}

/// The other two cells of the triple that the search enters at an empty cell `p` with a
/// candidate `val` that lies neither in row `p.0` nor in column `p.1` are empty.
#[verifier::rlimit(40)]
pub proof fn lemma_candidate_cells(t: Seq<Seq<Option<usize>>>, p: (usize, usize), val: usize)
    requires
        table_wf(t),
        t.len() < usize::MAX,
        consistent(t),
        owned_upto(t, p),
        p.1 < p.0 < val < t.len(),
        !in_row(t, p, val as int, p.0 as int),
        !in_col(t, p, val as int, t.len() as int),
    ensures
        t[val as int][p.0 as int] is None,
        t[val as int][p.1 as int] is None,
{
    let n = t.len() as int;
    let v = val as int;
    let p0 = p.0 as int;
    let p1 = p.1 as int;
    if t[v][p1] is Some {
        assert(row_start(p1) <= v);
        assert(in_col(t, p, v, n));
    }
    if t[v][p0] is Some {
        let y = t[v][p0]->0 as int;
        assert(y != v && y != p0);
        if y < p0 {
            lemma_cell_names_triple(t, v, p0, y);
            assert(entered(t, v, p0, y));
            assert(holds(t[p0][y], v));
            assert(in_row(t, p, v, p0));
        } else {
            let s = order3(y, v, p0);
            assert(s.2 == p0);
        }
    }
}

/// The search enters the triple of an empty cell `p` and a candidate `val` that lies neither in
/// row `p.0` nor in column `p.1`: the triple's other two cells are empty, and the table stays
/// sound at `p`.
pub proof fn lemma_set_sound(t: Seq<Seq<Option<usize>>>, p: (usize, usize), val: usize)
    requires
        table_wf(t),
        t.len() < usize::MAX,
        sound(t, p),
        p.1 < p.0 < val < t.len(),
        t[p.0 as int][p.1 as int] is None,
        !in_row(t, p, val as int, p.0 as int),
        !in_col(t, p, val as int, t.len() as int),
    ensures
        t[val as int][p.0 as int] is None,
        t[val as int][p.1 as int] is None,
        sound(with_triple(t, (val, p.0, p.1), false), p),
{
    lemma_candidate_cells(t, p, val);
    let st = (val, p.0, p.1);
    lemma_enter_keeps(t, st);
    lemma_with_triple(t, st, false);
    let u = with_triple(t, st, false);
    let p0 = p.0 as int;
    let p1 = p.1 as int;
    assert forall|i: int, j: int| 0 <= j < i < u.len() && #[trigger] u[i][j] is Some implies {
        let s = order3(u[i][j]->0 as int, i, j);
        s.2 == 0 || before((s.1, s.2), (p0, p1)) || (s.1 == p0 && s.2 == p1)
    } by {
        if cell_of(val as int, p0, p1, i, j) {
            lemma_cell_names_triple(u, val as int, p0, p1);
        } else {
            assert(u[i][j] == t[i][j]);
        }
    }
}

/// Clearing the triple entered at cell `q` keeps the table consistent and its fresh triples,
/// and leaves no triple entered at `q`.
#[verifier::spinoff_prover]
#[verifier::rlimit(40)]
pub proof fn lemma_clear_sound(t: Seq<Seq<Option<usize>>>, q: (usize, usize), e: usize)
    requires
        table_wf(t),
        t.len() < usize::MAX,
        sound(t, q),
        1 <= q.1 < q.0 < e < t.len(),
        t[q.0 as int][q.1 as int] == Some(e),
    ensures
        sound(with_triple(t, (e, q.0, q.1), true), q),
        unowned_at(with_triple(t, (e, q.0, q.1), true), q),
{
    let q0 = q.0 as int;
    let q1 = q.1 as int;
    let ei = e as int;
    assert(order3(ei, q0, q1) == (ei, q0, q1));
    assert(entered(t, ei, q0, q1));
    let st = (e, q.0, q.1);
    lemma_with_triple(t, st, true);
    let u = with_triple(t, st, true);
    assert forall|i: int, j: int| 0 <= j < i < u.len() && #[trigger] u[i][j] is Some implies {
        let x = u[i][j]->0 as int;
        let s = order3(x, i, j);
        &&& x != i && x != j && entered(u, s.0, s.1, s.2)
        &&& s.2 == 0 || before((s.1, s.2), (q0, q1)) || (s.1 == q0 && s.2 == q1)
        &&& !(s.1 == q0 && s.2 == q1)
    } by {
        assert(!cell_of(ei, q0, q1, i, j));
        assert(u[i][j] == t[i][j]);
        let x = t[i][j]->0 as int;
        let s = order3(x, i, j);
        assert(entered(t, s.0, s.1, s.2));
        if s.0 == ei && s.1 == q0 && s.2 == q1 {
            lemma_cell_names_triple(t, ei, q0, q1);
            assert(cell_of(ei, q0, q1, i, j)) by {
                lemma_cell_names_triple(t, s.0, s.1, s.2);
            }
        }
        lemma_entered_kept(t, st, true, s.0, s.1, s.2);
        if s.1 == q0 && s.2 == q1 {
            assert(t[q0][q1] == Some(s.0 as usize));
        }
    }
    assert forall|k: int| 1 <= k && 2 * k < u.len() implies #[trigger] entered(u, 2 * k, 2 * k - 1, 0) by {
        assert(entered(t, 2 * k, 2 * k - 1, 0));
        lemma_entered_kept(t, st, true, 2 * k, 2 * k - 1, 0);
    }
}

/// Where the cell at `q` does not hold the largest element of its triple, no triple is entered
/// at `q`.
pub proof fn lemma_unowned_here(t: Seq<Seq<Option<usize>>>, q: (usize, usize))
    requires
        table_wf(t),
        t.len() < usize::MAX,
        consistent(t),
        q.1 < q.0,
        !(cell(t, q) matches Some(e) && e > q.0 && e > q.1),
    ensures
        unowned_at(t, q),
{
    assert forall|i: int, j: int| 0 <= j < i < t.len() && #[trigger] t[i][j] is Some implies {
        let s = order3(t[i][j]->0 as int, i, j);
        !(s.1 == q.0 && s.2 == q.1)
    } by {
        let s = order3(t[i][j]->0 as int, i, j);
        if s.1 == q.0 && s.2 == q.1 {
            assert(entered(t, s.0, s.1, s.2));
        }
    }
}

/// Stepping back over a cell at which no triple is entered keeps every owner at or before the
/// pointer.
#[verifier::rlimit(40)]
pub proof fn lemma_back_owned(t: Seq<Seq<Option<usize>>>, q: (usize, usize))
    requires
        table_wf(t),
        t.len() < usize::MAX,
        owned_upto(t, q),
        unowned_at(t, q),
        seeds_kept(t),
        consistent(t),
        1 <= q.1 < q.0,
        start_row(q.1 as int) <= q.0,
    ensures
        owned_upto(t, prev_cell(t.len() as int, q)),
{
    let n = t.len() as int;
    let pq = prev_cell(n, q);
    assert forall|i: int, j: int| 0 <= j < i < t.len() && #[trigger] t[i][j] is Some implies {
        let s = order3(t[i][j]->0 as int, i, j);
        s.2 == 0 || before((s.1, s.2), (pq.0 as int, pq.1 as int)) || (s.1 == pq.0 && s.2 == pq.1)
    } by {
        let s = order3(t[i][j]->0 as int, i, j);
        assert(entered(t, s.0, s.1, s.2));
        if s.2 != 0 && q.0 == q.1 + 1 + q.1 % 2 && s.2 == q.1 && s.1 < q.0 {
            let k = (q.1 + 1) / 2;
            assert(s.1 == q.1 + 1 && q.1 % 2 == 1);
            assert(2 * k == q.1 + 1);
            assert(entered(t, 2 * k, 2 * k - 1, 0));
            assert(t[s.1][s.2] == Some(s.0 as usize));
        }
    }
}

/// Clearing cells only: whatever lies in a row or a column of the cleared table lies there in
/// the table before.
pub proof fn lemma_cleared_lines(t: Seq<Seq<Option<usize>>>, u: Seq<Seq<Option<usize>>>, p: (usize, usize), v: int)
    requires
        u.len() == t.len(),
        forall|i: int| 0 <= i < t.len() ==> #[trigger] u[i].len() == t[i].len(),
        forall|i: int, j: int| 0 <= i < t.len() && 0 <= j < t[i].len() && #[trigger] u[i][j] is Some ==> u[i][j] == t[i][j],
        p.0 < t.len(),
        p.1 < p.0,
        t[p.0 as int].len() == p.0,
        forall|i: int| 0 <= i < t.len() ==> #[trigger] t[i].len() == i,
    ensures
        in_row(u, p, v, p.0 as int) ==> in_row(t, p, v, p.0 as int),
        in_col(u, p, v, t.len() as int) ==> in_col(t, p, v, t.len() as int),
{
    if in_row(u, p, v, p.0 as int) {
        let j = choose|j: int| 0 <= j < p.0 && holds(#[trigger] u[p.0 as int][j], v);
        assert(holds(t[p.0 as int][j], v));
    }
    if in_col(u, p, v, t.len() as int) {
        let i = choose|i: int|
            row_start(p.1 as int) <= i < t.len() && #[trigger] u[i][p.1 as int] is Some && (holds(u[i][p.1 as int], v)
                || i == v);
        assert(u[i][p.1 as int] == t[i][p.1 as int]);
    }
}

/// In an entered triple, the cell of any two of its elements holds the third.
proof fn lemma_pair_cell(t: Seq<Seq<Option<usize>>>, a: int, b: int, c: int, x: int, y: int)
    requires
        entered(t, a, b, c),
        t.len() <= usize::MAX,
        x > y,
        x == a || x == b || x == c,
        y == a || y == b || y == c,
    ensures
        0 <= y < x < t.len(),
        t[x][y] is Some,
        t[x][y]->0 as int == a + b + c - x - y,
{
}

/// The triple of elements `a`, `b`, `c` is the triple of any two of them and the third.
proof fn lemma_triple_of_pair(a: int, b: int, c: int, x: int, y: int)
    requires
        x != y,
        x == a || x == b || x == c,
        y == a || y == b || y == c,
        a != b && b != c && a != c,
    ensures
        triple_of(a, b, c) == triple_of(x, y, a + b + c - x - y),
{
    assert(triple_of(a, b, c) =~= triple_of(x, y, a + b + c - x - y));
}

/// Three different elements make a set of three.
proof fn lemma_three(a: u32, b: u32, c: u32)
    requires
        a != b && b != c && a != c,
    ensures
        triple_of(a as int, b as int, c as int).finite(),
        triple_of(a as int, b as int, c as int).len() == 3,
{
    let s = Set::<u32>::empty().insert(a).insert(b).insert(c);
    assert(triple_of(a as int, b as int, c as int) =~= s);
    assert(Set::<u32>::empty().insert(a).len() == 1);
    assert(Set::<u32>::empty().insert(a).insert(b).len() == 2);
}

/// An owned cell's triple is entered.
proof fn lemma_owned_entered(t: Seq<Seq<Option<usize>>>, i: int, j: int)
    requires
        consistent(t),
        owns_triple(t, i, j),
    ensures
        entered(t, t[i][j]->0 as int, i, j),
{
    let e = t[i][j]->0 as int;
    assert(order3(e, i, j) == (e, i, j));
}

/// Each triple of a table is three elements from `0` to `n - 1`.
proof fn lemma_triples_shapes(t: Seq<Seq<Option<usize>>>)
    requires
        table_wf(t),
        1 <= t.len() <= u32::MAX,
    ensures
        shapes_ok(3, 0, t.len() - 1, table_triples(t)),
{
    let sets = table_triples(t);
    assert forall|s: Set<u32>| #[trigger] sets.contains(s) implies s.finite() && s.len() == 3 && forall|x: u32|
        #[trigger] s.contains(x) ==> 0 <= x <= t.len() - 1 by {
        let (i, j) = choose|i: int, j: int| #[trigger] owns_triple(t, i, j) && s == triple_of(i, j, t[i][j]->0 as int);
        let e = t[i][j]->0;
        assert(e < t.len());
        lemma_three(i as u32, j as u32, e as u32);
    }
}

/// Two triples of a consistent table that share two elements are the same.
#[verifier::rlimit(40)]
proof fn lemma_triples_meet_once(t: Seq<Seq<Option<usize>>>, i1: int, j1: int, i2: int, j2: int, x: int, y: int)
    requires
        table_wf(t),
        t.len() <= u32::MAX,
        entered(t, t[i1][j1]->0 as int, i1, j1),
        entered(t, t[i2][j2]->0 as int, i2, j2),
        x > y,
        triple_of(i1, j1, t[i1][j1]->0 as int).contains(x as u32),
        triple_of(i1, j1, t[i1][j1]->0 as int).contains(y as u32),
        triple_of(i2, j2, t[i2][j2]->0 as int).contains(x as u32),
        triple_of(i2, j2, t[i2][j2]->0 as int).contains(y as u32),
        0 <= y,
        x <= u32::MAX,
    ensures
        triple_of(i1, j1, t[i1][j1]->0 as int) == triple_of(i2, j2, t[i2][j2]->0 as int),
{
    let e1 = t[i1][j1]->0 as int;
    let e2 = t[i2][j2]->0 as int;
    lemma_pair_cell(t, e1, i1, j1, x, y);
    lemma_pair_cell(t, e2, i2, j2, x, y);
    lemma_triple_of_pair(i1, j1, e1, x, y);
    lemma_triple_of_pair(i2, j2, e2, x, y);
}

/// Where every owned triple is entered, no two triples of the table share a pair of elements.
proof fn lemma_triples_meet(t: Seq<Seq<Option<usize>>>)
    requires
        table_wf(t),
        t.len() <= u32::MAX,
        forall|i: int, j: int| #[trigger] owns_triple(t, i, j) ==> entered(t, t[i][j]->0 as int, i, j),
    ensures
        meet_at_most_once(table_triples(t)),
{
    let sets = table_triples(t);
    assert forall|s1: Set<u32>, s2: Set<u32>, x: u32, y: u32|
        #![trigger sets.contains(s1), sets.contains(s2), s1.contains(x), s2.contains(y)]
        sets.contains(s1) && sets.contains(s2) && s1 != s2 && s1.contains(x) && s1.contains(y)
            && s2.contains(x) && s2.contains(y) implies x == y by {
        if x != y {
            let (i1, j1) = choose|i: int, j: int| #[trigger] owns_triple(t, i, j) && s1 == triple_of(i, j, t[i][j]->0 as int);
            let (i2, j2) = choose|i: int, j: int| #[trigger] owns_triple(t, i, j) && s2 == triple_of(i, j, t[i][j]->0 as int);
            if x > y {
                lemma_triples_meet_once(t, i1, j1, i2, j2, x as int, y as int);
            } else {
                lemma_triples_meet_once(t, i1, j1, i2, j2, y as int, x as int);
            }
        }
    }
}

/// The triples of a consistent table are batches of three elements from `0` to `n - 1`, and no
/// two of them share a pair of elements.
pub proof fn law_consistent_table_triples(t: Seq<Seq<Option<usize>>>)
    requires
        table_wf(t),
        consistent(t),
        1 <= t.len() <= u32::MAX,
    ensures
        shapes_ok(3, 0, t.len() - 1, table_triples(t)),
        meet_at_most_once(table_triples(t)),
{
    lemma_triples_shapes(t);
    assert forall|i: int, j: int| #[trigger] owns_triple(t, i, j) implies entered(t, t[i][j]->0 as int, i, j) by {
        lemma_owned_entered(t, i, j);
    }
    lemma_triples_meet(t);
}

} // verus!
