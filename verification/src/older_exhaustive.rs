use vstd::prelude::*;
use crate::consistency::{entered, order3, owned_upto, seeds_kept};
use crate::exhaustive::{
    agree_before, ahead_before, agree_upto, all_beyond, at_or_before, completion, lemma_ahead_across, lemma_candidate_col_at,
    lemma_candidate_row, lemma_completion_odd, lemma_entry, lemma_forced, lemma_frame, lemma_settled_between,
    none_missed, not_behind, outruns_at, pos, triples_entered,
};
use crate::math::{
    filled_before, in_col as older_in_col, in_row as older_in_row, least_candidate as older_least_candidate,
    lemma_walk_next as lemma_older_walk_next, next_cell as older_next_cell, prev_cell as older_prev_cell,
    ruled_out as older_ruled_out, walk as older_walk,
};
use crate::progress::{filled_upto, walk_cell};
use crate::triples_array::{before, cell, holds, lemma_with_triple, table_wf, with_triple};

verus! {

// The same argument as in `exhaustive`, for the older search: it visits every cell of a
// column, and its candidates are ruled out by the cell's row and column read in full.

/// A completion that agrees with `t` before cell `p` and holds more at `p` holds there a
/// candidate of `t` at `p` that the older search does not rule out.
proof fn lemma_older_candidate(u: Seq<Seq<Option<usize>>>, t: Seq<Seq<Option<usize>>>, p: (usize, usize))
    requires
        completion(u, t.len() as int),
        table_wf(t),
        t.len() < usize::MAX,
        triples_entered(t),
        owned_upto(t, p),
        1 <= p.1 < p.0 < t.len(),
        outruns_at(u, t, pos(p)),
    ensures
        u[p.0 as int][p.1 as int] matches Some(e) && e > p.0 && older_least_candidate(t, p) <= e < t.len()
            && !older_ruled_out(t, p, older_least_candidate(t, p), e as int),
{
    let n = t.len() as int;
    let p0 = p.0 as int;
    let p1 = p.1 as int;
    assert(u[p0][p1] is Some);
    let e = u[p0][p1]->0 as int;
    lemma_entry(u, p0, p1);
    if e < p0 {
        assert forall|r: int, c: int| 0 <= c < r < u.len() && before((r, c), pos(p)) implies #[trigger] t[r][c] == u[r][c] by {
            assert(u[r][c] == t[r][c]);
        }
        lemma_forced(t, u, pos(p));
    }
    assert(order3(e, p0, p1) == (e, p0, p1));
    assert(e < n);
    lemma_candidate_row(u, t, p, e);
    if older_in_row(t, p, e, p0) {
        let j = choose|j: int| 0 <= j < p0 && #[trigger] t[p0][j] is Some && (holds(t[p0][j], e) || j == e);
        assert(holds(t[p0][j], e));
    }
    if older_in_col(t, p, e, n) {
        let i = choose|i: int| p1 + 1 <= i < n && #[trigger] t[i][p1] is Some && (holds(t[i][p1], e) || i == e);
        lemma_candidate_col_at(u, t, p, e, i);
    }
}

/// Walking forward over filled cells moves the older search's pointer on in its order.
pub proof fn lemma_older_walk_forward(t: Seq<Seq<Option<usize>>>, p: (usize, usize), k: nat)
    requires
        table_wf(t),
        t.len() < usize::MAX,
        forall|j: nat| j < k ==> #[trigger] cell(t, older_walk(t.len() as int, p, j)) is Some,
    ensures
        at_or_before(pos(p), pos(older_walk(t.len() as int, p, k))),
    decreases k,
{
    if k > 0 {
        let n = t.len() as int;
        let k1 = (k - 1) as nat;
        lemma_older_walk_forward(t, p, k1);
        lemma_older_walk_next(n, p, k1);
        let q = older_walk(n, p, k1);
        assert(cell(t, q) is Some);
        assert(t[q.0 as int].len() == q.0);
        assert(before(pos(q), pos(older_next_cell(n, q))));
    }
}

/// Where every cell before `p` is filled, so is every cell that the newer search visits.
pub proof fn lemma_filled_walk(t: Seq<Seq<Option<usize>>>, p: (usize, usize))
    requires
        filled_before(t, p),
    ensures
        filled_upto(t, p),
{
    let n = t.len() as int;
    assert forall|r: int, c: int| walk_cell(n, r, c) && before((r, c), pos(p)) implies #[trigger] t[r][c] is Some by {
        assert(0 <= c < r < n);
    }
}

/// Where the front `f` has no candidate, every completion lies ahead of the table before `f`.
pub proof fn lemma_older_front_fails(t: Seq<Seq<Option<usize>>>, f: (usize, usize))
    requires
        table_wf(t),
        3 <= t.len() < usize::MAX,
        triples_entered(t),
        owned_upto(t, f),
        1 <= f.1 < f.0 < t.len(),
        t[f.0 as int][f.1 as int] is None,
        forall|u: Seq<Seq<Option<usize>>>| #[trigger] completion(u, t.len() as int) ==> ahead_before(u, t, pos(f)) || agree_before(
            u,
            t,
            pos(f),
        ),
        forall|w: int| older_least_candidate(t, f) <= w < t.len() ==> #[trigger] older_ruled_out(t, f, older_least_candidate(t, f), w),
    ensures
        all_beyond(t, f),
{
    reveal(all_beyond);
    let n = t.len() as int;
    assert forall|u: Seq<Seq<Option<usize>>>| #[trigger] completion(u, n) implies ahead_before(u, t, pos(f)) || (t[f.0 as int][f.1 as int] is Some
        && outruns_at(u, t, pos(f))) by {
        if agree_before(u, t, pos(f)) {
            assert(u[f.0 as int][f.1 as int] is Some);
            assert(outruns_at(u, t, pos(f)));
            lemma_older_candidate(u, t, f);
        }
    }
}

/// Entering the least candidate `w` at the front `f` passes no completion.
pub proof fn lemma_older_front_takes(t: Seq<Seq<Option<usize>>>, f: (usize, usize), w: usize)
    requires
        table_wf(t),
        3 <= t.len() < usize::MAX,
        triples_entered(t),
        owned_upto(t, f),
        1 <= f.1 < f.0 < w < t.len(),
        t[f.0 as int][f.1 as int] is None,
        forall|u: Seq<Seq<Option<usize>>>| #[trigger] completion(u, t.len() as int) ==> ahead_before(u, t, pos(f)) || agree_before(
            u,
            t,
            pos(f),
        ),
        forall|v: int| older_least_candidate(t, f) <= v < w ==> #[trigger] older_ruled_out(t, f, older_least_candidate(t, f), v),
    ensures
        none_missed(with_triple(t, (w, f.0, f.1), false), f),
{
    reveal(none_missed);
    let n = t.len() as int;
    let t3 = with_triple(t, (w, f.0, f.1), false);
    lemma_with_triple(t, (w, f.0, f.1), false);
    assert forall|u: Seq<Seq<Option<usize>>>| #[trigger] completion(u, t3.len() as int) implies not_behind(u, t3, pos(f)) by {
        lemma_frame(u, t, t3, pos(f));
        if ahead_before(u, t, pos(f)) {
            let (r, c) = choose|r: int, c: int| 0 <= c < r < n && before((r, c), pos(f)) && #[trigger] outruns_at(u, t3, (r, c));
            assert(at_or_before((r, c), pos(f)));
        } else {
            assert(u[f.0 as int][f.1 as int] is Some);
            assert(outruns_at(u, t, pos(f)));
            lemma_older_candidate(u, t, f);
            let e = u[f.0 as int][f.1 as int]->0 as int;
            if e < w {
                assert(older_ruled_out(t, f, older_least_candidate(t, f), e));
            }
            if e == w {
                assert(agree_upto(u, t3, pos(f)));
            } else {
                assert(outruns_at(u, t3, pos(f)));
            }
        }
    }
}

/// Entering the least candidate `w` above the entry `v` of the owner cell `c`, in place of
/// `v`'s triple, passes no completion, where every completion lay ahead of the table before
/// `c` or at `c`.
pub proof fn lemma_older_back_takes(t: Seq<Seq<Option<usize>>>, c: (usize, usize), v: usize, w: usize)
    requires
        table_wf(t),
        3 <= t.len() < usize::MAX,
        triples_entered(t),
        owned_upto(t, c),
        1 <= c.1 < c.0 < v < t.len(),
        c.0 < w < t.len(),
        t[c.0 as int][c.1 as int] == Some(v),
        all_beyond(t, c),
        forall|x: int| older_least_candidate(t, c) <= x < w ==> #[trigger] older_ruled_out(t, c, older_least_candidate(t, c), x),
    ensures
        none_missed(with_triple(with_triple(t, (v, c.0, c.1), true), (w, c.0, c.1), false), c),
{
    reveal(none_missed);
    reveal(all_beyond);
    let n = t.len() as int;
    let t2 = with_triple(t, (v, c.0, c.1), true);
    let t3 = with_triple(t2, (w, c.0, c.1), false);
    lemma_with_triple(t, (v, c.0, c.1), true);
    lemma_with_triple(t2, (w, c.0, c.1), false);
    assert forall|r: int, d: int| 0 <= d < r < n && before((r, d), pos(c)) implies #[trigger] t3[r][d] == t[r][d] by {
        assert(t3[r][d] == t2[r][d]);
    }
    assert forall|u: Seq<Seq<Option<usize>>>| #[trigger] completion(u, t3.len() as int) implies not_behind(u, t3, pos(c)) by {
        lemma_frame(u, t, t3, pos(c));
        if ahead_before(u, t, pos(c)) {
            let (r, d) = choose|r: int, d: int| 0 <= d < r < n && before((r, d), pos(c)) && #[trigger] outruns_at(u, t3, (r, d));
            assert(at_or_before((r, d), pos(c)));
        } else {
            assert(outruns_at(u, t, pos(c)));
            lemma_older_candidate(u, t, c);
            let e = u[c.0 as int][c.1 as int]->0 as int;
            if e < w {
                assert(older_ruled_out(t, c, older_least_candidate(t, c), e));
            }
            if e == w {
                assert(agree_upto(u, t3, pos(c)));
            } else {
                assert(outruns_at(u, t3, pos(c)));
            }
        }
    }
}

/// From a pointer `c` past which every completion lies, the cell before it in the older
/// search's order, where the table `t2` agrees with `t` before `c`, is filled, and has every
/// completion ahead of `t2` up to it.
proof fn lemma_older_step_back(
    t: Seq<Seq<Option<usize>>>,
    t2: Seq<Seq<Option<usize>>>,
    c: (usize, usize),
    u: Seq<Seq<Option<usize>>>,
)
    requires
        table_wf(t2),
        t2.len() == t.len(),
        3 <= t.len() < usize::MAX,
        triples_entered(t2),
        seeds_kept(t2),
        1 <= c.1 < c.0 < t.len(),
        owned_upto(t2, older_prev_cell(t.len() as int, c)),
        filled_before(t, c),
        forall|r: int, d: int| 0 <= d < r < t.len() && before((r, d), pos(c)) ==> #[trigger] t2[r][d] == t[r][d],
        completion(u, t.len() as int),
        ahead_before(u, t, pos(c)),
    ensures
        ahead_before(u, t2, pos(older_prev_cell(t.len() as int, c))) || (t2[older_prev_cell(t.len() as int, c).0 as int][older_prev_cell(
            t.len() as int,
            c,
        ).1 as int] is Some && outruns_at(u, t2, pos(older_prev_cell(t.len() as int, c)))),
{
    let n = t.len() as int;
    let q = older_prev_cell(n, c);
    lemma_completion_odd(u, n);
    assert(filled_before(t2, c)) by {
        assert forall|r: int, d: int| 0 <= d < r < n && before((r, d), pos(c)) implies #[trigger] t2[r][d] is Some by {
            assert(t[r][d] is Some);
        }
    }
    lemma_filled_walk(t2, c);
    lemma_frame(u, t, t2, pos(c));
    lemma_settled_between(t2, q, c);
    lemma_ahead_across(u, t2, pos(q), pos(c));
    assert(0 <= q.1 < q.0 <= n - 2);
    assert(before(pos(q), pos(c)));
    assert(t2[q.0 as int][q.1 as int] is Some);
}

/// Where the owner cell `c` has no candidate above its entry `v`, clearing `v`'s triple and
/// stepping back leaves every completion ahead of the table before the cell before `c`, or at
/// that cell.
pub proof fn lemma_older_back_fails(t: Seq<Seq<Option<usize>>>, c: (usize, usize), v: usize)
    requires
        table_wf(t),
        3 <= t.len() < usize::MAX,
        triples_entered(t),
        triples_entered(with_triple(t, (v, c.0, c.1), true)),
        seeds_kept(with_triple(t, (v, c.0, c.1), true)),
        owned_upto(t, c),
        owned_upto(with_triple(t, (v, c.0, c.1), true), older_prev_cell(t.len() as int, c)),
        filled_before(t, c),
        1 <= c.1 < c.0 < v < t.len(),
        t[c.0 as int][c.1 as int] == Some(v),
        all_beyond(t, c),
        forall|x: int| older_least_candidate(t, c) <= x < t.len() ==> #[trigger] older_ruled_out(t, c, older_least_candidate(t, c), x),
    ensures
        all_beyond(with_triple(t, (v, c.0, c.1), true), older_prev_cell(t.len() as int, c)),
{
    reveal(all_beyond);
    let n = t.len() as int;
    let t2 = with_triple(t, (v, c.0, c.1), true);
    lemma_with_triple(t, (v, c.0, c.1), true);
    assert forall|u: Seq<Seq<Option<usize>>>| #[trigger] completion(u, t2.len() as int) implies ahead_before(u, t2, pos(older_prev_cell(n, c)))
        || (t2[older_prev_cell(n, c).0 as int][older_prev_cell(n, c).1 as int] is Some && outruns_at(u, t2, pos(older_prev_cell(n, c)))) by {
        if outruns_at(u, t, pos(c)) {
            lemma_older_candidate(u, t, c);
        }
        lemma_older_step_back(t, t2, c, u);
    }
}

/// Stepping back over a cell `c` that owns no triple leaves every completion ahead of the
/// table before the cell before `c`, or at that cell.
pub proof fn lemma_older_back_skips(t: Seq<Seq<Option<usize>>>, c: (usize, usize))
    requires
        table_wf(t),
        3 <= t.len() < usize::MAX,
        triples_entered(t),
        seeds_kept(t),
        owned_upto(t, older_prev_cell(t.len() as int, c)),
        filled_before(t, c),
        1 <= c.1 < c.0 < t.len(),
        !(t[c.0 as int][c.1 as int] matches Some(e) && e > c.0 && e > c.1),
        all_beyond(t, c),
    ensures
        all_beyond(t, older_prev_cell(t.len() as int, c)),
{
    reveal(all_beyond);
    let n = t.len() as int;
    assert forall|u: Seq<Seq<Option<usize>>>| #[trigger] completion(u, n) implies ahead_before(u, t, pos(older_prev_cell(n, c)))
        || (t[older_prev_cell(n, c).0 as int][older_prev_cell(n, c).1 as int] is Some && outruns_at(u, t, pos(older_prev_cell(n, c)))) by {
        lemma_completion_odd(u, n);
        if t[c.0 as int][c.1 as int] is Some && outruns_at(u, t, pos(c)) {
            lemma_entry(t, c.0 as int, c.1 as int);
            lemma_forced(u, t, pos(c));
        }
        lemma_older_step_back(t, t, c, u);
    }
}

/// The cells before `q` stay filled in a table that agrees, up to `q`, with one whose cells
/// before `f` are filled, where `q` is at or before `f`.
pub proof fn lemma_older_filled_kept(t0: Seq<Seq<Option<usize>>>, t1: Seq<Seq<Option<usize>>>, f: (usize, usize), q: (usize, usize))
    requires
        t1.len() == t0.len(),
        filled_before(t0, f),
        at_or_before(pos(q), pos(f)),
        forall|r: int, c: int|
            0 <= c < r < t0.len() && (before((r, c), (q.0 as int, q.1 as int)) || (r == q.0 && c == q.1)) ==> #[trigger] t1[r][c]
                == t0[r][c],
    ensures
        filled_before(t1, q),
{
    let n = t0.len() as int;
    assert forall|r: int, c: int| 0 <= c < r < n && before((r, c), pos(q)) implies #[trigger] t1[r][c] is Some by {
        assert(t0[r][c] is Some);
        assert(t1[r][c] == t0[r][c]);
    }
}

} // verus!
