use vstd::prelude::*;
use crate::triples_array::{before, cell, next_cell, prev_cell, start_row, table_wf, walk};

verus! {

// How far a search for a Steiner triple system has filled its table: the cells that it steps
// through, in its order, and the places its pointer takes.

/// Cell `(r, c)` is one that the search steps through: in a column from `1` on, from the first
/// row it visits there down to row `n - 2`.
pub open spec fn walk_cell(n: int, r: int, c: int) -> bool {
    c >= 1 && start_row(c) <= r <= n - 2
}

/// Every cell that the search steps through before `p` holds an entry.
pub open spec fn filled_upto(t: Seq<Seq<Option<usize>>>, p: (usize, usize)) -> bool {
    forall|r: int, c: int|
        walk_cell(t.len() as int, r, c) && before((r, c), (p.0 as int, p.1 as int)) ==> #[trigger] t[r][c] is Some
}

/// Every cell that the search steps through holds an entry.
pub open spec fn walk_filled(t: Seq<Seq<Option<usize>>>) -> bool {
    forall|r: int, c: int| walk_cell(t.len() as int, r, c) ==> #[trigger] t[r][c] is Some
}

/// A place the search's pointer takes: in a column from `1` on, at or below the first row
/// visited there, and above row `n - 1` unless it is that first row.
pub open spec fn placed(n: int, p: (usize, usize)) -> bool {
    p.1 >= 1 && start_row(p.1 as int) <= p.0 && (p.0 <= n - 2 || p.0 == start_row(p.1 as int))
}

/// The place just below a column's first row, where that row is the table's last one or lies
/// past it.
pub open spec fn past_edge(n: int, p: (usize, usize)) -> bool {
    p.1 >= 1 && p.0 == start_row(p.1 as int) + 1 && start_row(p.1 as int) >= n - 1
}

/// Later columns start no higher.
pub proof fn lemma_start_row_mono(c: int, d: int)
    requires
        0 <= c <= d,
    ensures
        start_row(c) <= start_row(d),
{
}

/// Stepping forward from a filled cell keeps every visited cell before the pointer filled, and
/// the pointer in place.
proof fn lemma_next_filled(t: Seq<Seq<Option<usize>>>, p: (usize, usize))
    requires
        table_wf(t),
        t.len() < usize::MAX,
        filled_upto(t, p),
        cell(t, p) is Some,
        placed(t.len() as int, p) || past_edge(t.len() as int, p),
    ensures
        filled_upto(t, next_cell(t.len() as int, p)),
        placed(t.len() as int, next_cell(t.len() as int, p)) || past_edge(t.len() as int, next_cell(t.len() as int, p)),
{
    let n = t.len() as int;
    assert(p.1 < p.0 < n) by {
        assert(t[p.0 as int].len() == p.0);
    }
    let q = next_cell(n, p);
    assert forall|r: int, c: int| walk_cell(n, r, c) && before((r, c), (q.0 as int, q.1 as int)) implies #[trigger] t[r][c] is Some by {
        if r == p.0 && c == p.1 {
        } else {
            assert(before((r, c), (p.0 as int, p.1 as int)));
        }
    }
}

/// Walking forward over filled cells keeps every visited cell before the pointer filled, and
/// the pointer in place.
pub proof fn lemma_walk_filled(t: Seq<Seq<Option<usize>>>, p: (usize, usize), k: nat)
    requires
        table_wf(t),
        t.len() < usize::MAX,
        filled_upto(t, p),
        placed(t.len() as int, p),
        forall|j: nat| j < k ==> #[trigger] cell(t, walk(t.len() as int, p, j)) is Some,
    ensures
        filled_upto(t, walk(t.len() as int, p, k)),
        placed(t.len() as int, walk(t.len() as int, p, k)) || past_edge(t.len() as int, walk(t.len() as int, p, k)),
    decreases k,
{
    lemma_walk_filled_from(t, p, k);
}

/// `lemma_walk_filled`, from a pointer in place or just past an edge.
proof fn lemma_walk_filled_from(t: Seq<Seq<Option<usize>>>, p: (usize, usize), k: nat)
    requires
        table_wf(t),
        t.len() < usize::MAX,
        filled_upto(t, p),
        placed(t.len() as int, p) || past_edge(t.len() as int, p),
        forall|j: nat| j < k ==> #[trigger] cell(t, walk(t.len() as int, p, j)) is Some,
    ensures
        filled_upto(t, walk(t.len() as int, p, k)),
        placed(t.len() as int, walk(t.len() as int, p, k)) || past_edge(t.len() as int, walk(t.len() as int, p, k)),
    decreases k,
{
    if k > 0 {
        let n = t.len() as int;
        assert(cell(t, walk(n, p, 0)) is Some);
        lemma_next_filled(t, p);
        let q = next_cell(n, p);
        assert forall|j: nat| j < k - 1 implies #[trigger] cell(t, walk(n, q, j)) is Some by {
            assert(walk(n, p, j + 1) == walk(n, q, j));
            assert(cell(t, walk(n, p, j + 1)) is Some);
        }
        lemma_walk_filled_from(t, q, (k - 1) as nat);
        assert(walk(n, p, k) == walk(n, q, (k - 1) as nat));
    }
}

/// A pointer in place, or just past an edge, that lies outside the table has every visited cell
/// before it.
pub proof fn lemma_outside_all_filled(t: Seq<Seq<Option<usize>>>, p: (usize, usize))
    requires
        filled_upto(t, p),
        placed(t.len() as int, p) || past_edge(t.len() as int, p),
        !(p.1 < p.0 < t.len()),
    ensures
        walk_filled(t),
{
    let n = t.len() as int;
    assert forall|r: int, c: int| walk_cell(n, r, c) implies #[trigger] t[r][c] is Some by {
        if c >= p.1 {
            lemma_start_row_mono(p.1 as int, c);
        }
        assert(before((r, c), (p.0 as int, p.1 as int)));
    }
}

/// Stepping back from a pointer in place leaves it in place, unless it leaves the columns the
/// search visits.
pub proof fn lemma_back_placed(n: int, q: (usize, usize))
    requires
        placed(n, q),
        n < usize::MAX,
        q.1 >= 2 ==> start_row(q.1 - 1) <= n - 2,
    ensures
        prev_cell(n, q).1 >= 1 ==> placed(n, prev_cell(n, q)),
        before((prev_cell(n, q).0 as int, prev_cell(n, q).1 as int), (q.0 as int, q.1 as int)),
{
    let pq = prev_cell(n, q);
    if q.0 == q.1 + 1 + q.1 % 2 {
        if q.1 >= 2 {
            assert(start_row(q.1 - 1) >= 1);
            assert(n >= 3);
            assert(pq.0 == n - 2);
            assert(pq.1 == q.1 - 1);
        }
    } else {
        assert(q.0 > start_row(q.1 as int));
        assert(pq.0 == q.0 - 1 && pq.1 == q.1);
    }
}

} // verus!
