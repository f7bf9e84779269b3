use vstd::prelude::*;
use crate::consistency::{consistent, entered, order3, owned_upto, seeds_kept};
use crate::counting::{cell_ok, full, lemma_last_row, lemma_odd_rows, pair_cell};
use crate::progress::{filled_upto, walk_cell};
use crate::consistency::{lemma_fresh_sound, sound};
use crate::triples_array::{
    before, cell, entry_digit, holds, in_col, in_row, initial_cell, least_candidate, lemma_walk_next, lemma_with_triple,
    next_cell, prev_cell, row_start, ruled_out, start_row, table_wf, walk, with_triple,
};

verus! {

// Why a search that steps back to the first column has missed nothing. Read cell by cell in
// the search's order, the tables that complete a fresh one never fall behind the search's
// table; and each one that the search steps back over lies strictly ahead of it. Stepping
// back past the first visited cell thus leaves none.

/// A full, consistent table on `n` elements that keeps the triples of a fresh one: a Steiner
/// triple system whose triples through `0` are `{0, 2 * k - 1, 2 * k}`, as a search from a
/// fresh table would find it.
pub open spec fn completion(u: Seq<Seq<Option<usize>>>, n: int) -> bool {
    &&& table_wf(u)
    &&& u.len() == n
    &&& triples_entered(u)
    &&& full(u)
    &&& seeds_kept(u)
}

/// Every entry of `t` belongs to a triple entered in all three of its cells (`consistent`),
/// kept as one fact that proofs unfold a cell at a time (see `lemma_entry`).
#[verifier::opaque]
pub open spec fn triples_entered(t: Seq<Seq<Option<usize>>>) -> bool {
    consistent(t)
}

/// A consistent table has its triples entered.
pub proof fn lemma_fold(t: Seq<Seq<Option<usize>>>)
    requires
        consistent(t),
    ensures
        triples_entered(t),
{
    reveal(triples_entered);
}

/// The entry of a filled cell is neither of its elements, and its triple is entered.
pub(crate) proof fn lemma_entry(t: Seq<Seq<Option<usize>>>, i: int, j: int)
    requires
        triples_entered(t),
        0 <= j < i < t.len(),
        t[i][j] is Some,
    ensures
        ({
            let e = t[i][j]->0 as int;
            let s = order3(e, i, j);
            e != i && e != j && entered(t, s.0, s.1, s.2)
        }),
{
    reveal(triples_entered);
}

/// Cell `x` lies below the diagonal of a table on `n` elements.
pub open spec fn lower(n: int, x: (int, int)) -> bool {
    0 <= x.1 < x.0 < n
}

/// Cell `x` is `p` or comes before it in the search's order.
pub open spec fn at_or_before(x: (int, int), p: (int, int)) -> bool {
    before(x, p) || x == p
}

/// A pointer as a cell.
pub open spec fn pos(p: (usize, usize)) -> (int, int) {
    (p.0 as int, p.1 as int)
}

/// Tables `u` and `t` agree on every cell before `p`.
pub open spec fn agree_before(u: Seq<Seq<Option<usize>>>, t: Seq<Seq<Option<usize>>>, p: (int, int)) -> bool {
    forall|r: int, c: int| 0 <= c < r < t.len() && before((r, c), p) ==> #[trigger] u[r][c] == t[r][c]
}

/// Tables `u` and `t` agree on every cell up to `p`.
pub open spec fn agree_upto(u: Seq<Seq<Option<usize>>>, t: Seq<Seq<Option<usize>>>, p: (int, int)) -> bool {
    forall|r: int, c: int| 0 <= c < r < t.len() && at_or_before((r, c), p) ==> #[trigger] u[r][c] == t[r][c]
}

/// The first difference of `u` from `t` is at `q`, where `u` holds more (an entry where `t`
/// holds none counts as more).
pub open spec fn outruns_at(u: Seq<Seq<Option<usize>>>, t: Seq<Seq<Option<usize>>>, q: (int, int)) -> bool {
    &&& agree_before(u, t, q)
    &&& entry_digit(u[q.0][q.1]) > entry_digit(t[q.0][q.1])
}

/// `u` lies ahead of `t` on the cells before `p`.
pub open spec fn ahead_before(u: Seq<Seq<Option<usize>>>, t: Seq<Seq<Option<usize>>>, p: (int, int)) -> bool {
    exists|r: int, c: int| 0 <= c < r < t.len() && before((r, c), p) && #[trigger] outruns_at(u, t, (r, c))
}

/// `u` lies ahead of `t` on the cells up to `p`.
pub open spec fn ahead_upto(u: Seq<Seq<Option<usize>>>, t: Seq<Seq<Option<usize>>>, p: (int, int)) -> bool {
    exists|r: int, c: int| 0 <= c < r < t.len() && at_or_before((r, c), p) && #[trigger] outruns_at(u, t, (r, c))
}

/// Up to `p`, `u` is `t` or lies ahead of it.
pub open spec fn not_behind(u: Seq<Seq<Option<usize>>>, t: Seq<Seq<Option<usize>>>, p: (int, int)) -> bool {
    ahead_upto(u, t, p) || agree_upto(u, t, p)
}

/// No completion of a fresh table lies behind `t` up to the pointer `p`: a search at `t` has
/// passed none of them.
#[verifier::opaque]
pub open spec fn none_missed(t: Seq<Seq<Option<usize>>>, p: (usize, usize)) -> bool {
    forall|u: Seq<Seq<Option<usize>>>| #[trigger] completion(u, t.len() as int) ==> not_behind(u, t, pos(p))
}

/// Every completion of a fresh table lies ahead of `t` before the pointer `p`, or at `p`
/// itself where `t` has an entry there.
#[verifier::opaque]
pub open spec fn all_beyond(t: Seq<Seq<Option<usize>>>, p: (usize, usize)) -> bool {
    forall|u: Seq<Seq<Option<usize>>>| #[trigger] completion(u, t.len() as int) ==> ahead_before(u, t, pos(p)) || (t[p.0 as int][p.1 as int] is Some
        && outruns_at(u, t, pos(p)))
}

/// Cell `x` of `t` holds what the cells before it fix: it lies in the first column, or holds
/// an element smaller than its row, so that the triple was entered at an earlier cell.
pub open spec fn settled(t: Seq<Seq<Option<usize>>>, x: (int, int)) -> bool {
    x.1 == 0 || (t[x.0][x.1] matches Some(e) && e < x.0)
}

/// Where two tables differ at a cell, they differ first at a cell at or before it.
proof fn lemma_first_difference(u: Seq<Seq<Option<usize>>>, t: Seq<Seq<Option<usize>>>, x: (int, int))
    requires
        u.len() == t.len(),
        lower(t.len() as int, x),
        u[x.0][x.1] != t[x.0][x.1],
    ensures
        exists|r: int, c: int|
            0 <= c < r < t.len() && at_or_before((r, c), x) && agree_before(u, t, (r, c)) && #[trigger] u[r][c]
                != t[r][c],
    decreases x.1 * t.len() + x.0,
{
    let n = t.len() as int;
    if !agree_before(u, t, x) {
        let (r, c) = choose|r: int, c: int| 0 <= c < r < n && before((r, c), x) && u[r][c] != t[r][c];
        assert(0 <= c * n + r < x.1 * n + x.0) by (nonlinear_arith)
            requires
                c < x.1 || (c == x.1 && r < x.0),
                0 <= r < n,
                0 <= c,
                0 <= x.0,
        ;
        lemma_first_difference(u, t, (r, c));
        let (r2, c2) = choose|r2: int, c2: int|
            0 <= c2 < r2 < n && at_or_before((r2, c2), (r, c)) && agree_before(u, t, (r2, c2)) && u[r2][c2] != t[r2][c2];
        assert(at_or_before((r2, c2), x));
    }
}

/// A cell that holds an element smaller than its row gets its entry from the earlier cell that
/// owns its triple: a consistent table that agrees with `t` before it holds the same entry.
pub(crate) proof fn lemma_forced(u: Seq<Seq<Option<usize>>>, t: Seq<Seq<Option<usize>>>, x: (int, int))
    requires
        u.len() == t.len(),
        t.len() < usize::MAX,
        triples_entered(u),
        triples_entered(t),
        lower(t.len() as int, x),
        t[x.0][x.1] matches Some(e) && e < x.0,
        agree_before(u, t, x),
    ensures
        u[x.0][x.1] == t[x.0][x.1],
{
    let e = t[x.0][x.1]->0 as int;
    lemma_entry(t, x.0, x.1);
    if e > x.1 {
        assert(order3(e, x.0, x.1) == (x.0, e, x.1));
        assert(u[e][x.1] == t[e][x.1]);
        lemma_entry(u, e, x.1);
        assert(order3(x.0, e, x.1) == (x.0, e, x.1));
    } else {
        assert(order3(e, x.0, x.1) == (x.0, x.1, e));
        assert(u[x.1][e] == t[x.1][e]);
        lemma_entry(u, x.1, e);
        assert(order3(x.0, x.1, e) == (x.0, x.1, e));
    }
}

/// A settled cell of `t` holds the same in a completion that agrees with `t` before it.
pub(crate) proof fn lemma_settled_agree(u: Seq<Seq<Option<usize>>>, t: Seq<Seq<Option<usize>>>, x: (int, int))
    requires
        completion(u, t.len() as int),
        t.len() < usize::MAX,
        triples_entered(t),
        seeds_kept(t),
        t.len() % 2 == 1,
        lower(t.len() as int, x),
        settled(t, x),
        agree_before(u, t, x),
    ensures
        u[x.0][x.1] == t[x.0][x.1],
{
    if x.1 == 0 {
        if x.0 % 2 == 0 {
            let k = x.0 / 2;
            assert(entered(u, 2 * k, 2 * k - 1, 0));
            assert(entered(t, 2 * k, 2 * k - 1, 0));
        } else {
            let k = (x.0 + 1) / 2;
            assert(entered(u, 2 * k, 2 * k - 1, 0));
            assert(entered(t, 2 * k, 2 * k - 1, 0));
        }
    } else {
        lemma_forced(u, t, x);
    }
}

/// Tables that agree up to `a` agree before `b` too, where every cell in between is settled.
proof fn lemma_agree_across(u: Seq<Seq<Option<usize>>>, t: Seq<Seq<Option<usize>>>, a: (int, int), b: (int, int))
    requires
        completion(u, t.len() as int),
        t.len() < usize::MAX,
        triples_entered(t),
        seeds_kept(t),
        t.len() % 2 == 1,
        agree_upto(u, t, a),
        forall|r: int, c: int|
            0 <= c < r < t.len() && before(a, (r, c)) && before((r, c), b) ==> #[trigger] settled(t, (r, c)),
    ensures
        agree_before(u, t, b),
{
    let n = t.len() as int;
    if !agree_before(u, t, b) {
        let (r, c) = choose|r: int, c: int| 0 <= c < r < n && before((r, c), b) && u[r][c] != t[r][c];
        lemma_first_difference(u, t, (r, c));
        let (r2, c2) = choose|r2: int, c2: int|
            0 <= c2 < r2 < n && at_or_before((r2, c2), (r, c)) && agree_before(u, t, (r2, c2)) && u[r2][c2] != t[r2][c2];
        if at_or_before((r2, c2), a) {
            assert(u[r2][c2] == t[r2][c2]);
        } else {
            assert(settled(t, (r2, c2)));
            lemma_settled_agree(u, t, (r2, c2));
        }
    }
}

/// A table ahead of `t` before `b` is ahead of it up to `a`, where every cell strictly between
/// them is settled.
pub(crate) proof fn lemma_ahead_across(u: Seq<Seq<Option<usize>>>, t: Seq<Seq<Option<usize>>>, a: (int, int), b: (int, int))
    requires
        completion(u, t.len() as int),
        t.len() < usize::MAX,
        triples_entered(t),
        seeds_kept(t),
        t.len() % 2 == 1,
        ahead_before(u, t, b),
        forall|r: int, c: int|
            0 <= c < r < t.len() && before(a, (r, c)) && before((r, c), b) ==> #[trigger] settled(t, (r, c)),
    ensures
        ahead_upto(u, t, a),
{
    let n = t.len() as int;
    let (r, c) = choose|r: int, c: int| 0 <= c < r < n && before((r, c), b) && #[trigger] outruns_at(u, t, (r, c));
    if !at_or_before((r, c), a) {
        assert(settled(t, (r, c)));
        lemma_settled_agree(u, t, (r, c));
    }
}

/// Tables that agree before `p` stand alike, before `p`, against any other table.
pub(crate) proof fn lemma_frame(u: Seq<Seq<Option<usize>>>, t: Seq<Seq<Option<usize>>>, t2: Seq<Seq<Option<usize>>>, p: (int, int))
    requires
        t2.len() == t.len(),
        forall|r: int, c: int| 0 <= c < r < t.len() && before((r, c), p) ==> #[trigger] t2[r][c] == t[r][c],
    ensures
        ahead_before(u, t, p) == ahead_before(u, t2, p),
        agree_before(u, t, p) == agree_before(u, t2, p),
{
    let n = t.len() as int;
    assert forall|q: (int, int)| at_or_before(q, p) implies agree_before(u, t, q) == agree_before(u, t2, q) by {
        if agree_before(u, t, q) {
            assert forall|r: int, c: int| 0 <= c < r < n && before((r, c), q) implies #[trigger] u[r][c] == t2[r][c] by {
                assert(t2[r][c] == t[r][c]);
            }
        }
        if agree_before(u, t2, q) {
            assert forall|r: int, c: int| 0 <= c < r < n && before((r, c), q) implies #[trigger] u[r][c] == t[r][c] by {
                assert(t2[r][c] == t[r][c]);
            }
        }
    }
    if ahead_before(u, t, p) {
        let (r, c) = choose|r: int, c: int| 0 <= c < r < n && before((r, c), p) && #[trigger] outruns_at(u, t, (r, c));
        assert(agree_before(u, t, (r, c)) == agree_before(u, t2, (r, c)));
        assert(t2[r][c] == t[r][c]);
        assert(outruns_at(u, t2, (r, c)));
    }
    if ahead_before(u, t2, p) {
        let (r, c) = choose|r: int, c: int| 0 <= c < r < n && before((r, c), p) && #[trigger] outruns_at(u, t2, (r, c));
        assert(agree_before(u, t, (r, c)) == agree_before(u, t2, (r, c)));
        assert(t2[r][c] == t[r][c]);
        assert(outruns_at(u, t, (r, c)));
    }
}

/// Where the cells that the search visits before `p` are filled, and the fresh triples stay,
/// every cell before `p` above the last row is filled.
pub(crate) proof fn lemma_filled_before(t: Seq<Seq<Option<usize>>>, p: (usize, usize))
    requires
        table_wf(t),
        filled_upto(t, p),
        seeds_kept(t),
    ensures
        forall|r: int, c: int| 0 <= c < r <= t.len() - 2 && before((r, c), pos(p)) ==> #[trigger] t[r][c] is Some,
{
    let n = t.len() as int;
    assert forall|r: int, c: int| 0 <= c < r <= n - 2 && before((r, c), pos(p)) implies #[trigger] t[r][c] is Some by {
        if c == 0 {
            if r % 2 == 0 {
                let k = r / 2;
                assert(entered(t, 2 * k, 2 * k - 1, 0));
            } else {
                let k = (r + 1) / 2;
                assert(entered(t, 2 * k, 2 * k - 1, 0));
            }
        } else if r >= start_row(c) {
            assert(walk_cell(n, r, c));
        } else {
            let k = (c + 1) / 2;
            assert(entered(t, 2 * k, 2 * k - 1, 0));
        }
    }
}

/// Between a pointer `a` that owns every triple up to it and a pointer `b` before which the
/// visited cells are filled, on an odd number of elements, every cell is settled: the visited
/// ones hold no triple of their own, and the last row is filled as its columns pair off.
pub(crate) proof fn lemma_settled_between(t: Seq<Seq<Option<usize>>>, a: (usize, usize), b: (usize, usize))
    requires
        table_wf(t),
        t.len() < usize::MAX,
        t.len() % 2 == 1,
        triples_entered(t),
        seeds_kept(t),
        owned_upto(t, a),
        filled_upto(t, b),
    ensures
        forall|r: int, c: int|
            0 <= c < r < t.len() && before(pos(a), (r, c)) && before((r, c), pos(b)) ==> #[trigger] settled(t, (r, c)),
{
    let n = t.len() as int;
    lemma_filled_before(t, b);
    assert forall|r: int, c: int|
        0 <= c < r < n && before(pos(a), (r, c)) && before((r, c), pos(b)) implies #[trigger] settled(t, (r, c)) by {
        if c == 0 {
        } else if r == n - 1 {
            assert forall|y: int| 0 <= y <= n - 2 && y != c implies #[trigger] cell_ok(t, pair_cell(c, y)) by {
                let x = pair_cell(c, y);
                assert(t[x.0][x.1] is Some);
                lemma_entry(t, x.0, x.1);
            }
            lemma_last_row(t, c);
        }
        if c != 0 {
            assert(t[r][c] is Some);
            lemma_entry(t, r, c);
            let e = t[r][c]->0 as int;
            if e > r {
                assert(order3(e, r, c) == (e, r, c));
            }
        }
    }
}

/// A completion that agrees with `t` before cell `p` and holds element `e` there, above `p`'s
/// row, has `e` in no cell of row `p.0` of `t` but `p`: a triple that `t` entered before `p`
/// is the completion's too.
pub(crate) proof fn lemma_candidate_row(u: Seq<Seq<Option<usize>>>, t: Seq<Seq<Option<usize>>>, p: (usize, usize), e: int)
    requires
        completion(u, t.len() as int),
        table_wf(t),
        t.len() < usize::MAX,
        triples_entered(t),
        owned_upto(t, p),
        1 <= p.1 < p.0 < e < t.len(),
        agree_before(u, t, pos(p)),
        entered(u, e, p.0 as int, p.1 as int),
        t[p.0 as int][p.1 as int] != Some(e as usize),
    ensures
        !in_row(t, p, e, p.0 as int),
{
    let p0 = p.0 as int;
    let p1 = p.1 as int;
    if in_row(t, p, e, p0) {
        let j = choose|j: int| 0 <= j < p0 && holds(#[trigger] t[p0][j], e);
        assert(t[p0][j] is Some);
        lemma_entry(t, p0, j);
        assert(order3(e, p0, j) == (e, p0, j));
        if j > p1 {
            assert(!before((p0, j), pos(p)));
        }
        assert(u[p0][j] == t[p0][j]);
        lemma_entry(u, p0, j);
    }
}

/// Such a completion has `e` in no cell `(i, p.1)` of column `p.1` of `t` but `p`, and no
/// entry in that column at row `e`: the triples involved would be the completion's too.
#[verifier::rlimit(30)]
pub(crate) proof fn lemma_candidate_col_at(
    u: Seq<Seq<Option<usize>>>,
    t: Seq<Seq<Option<usize>>>,
    p: (usize, usize),
    e: int,
    i: int,
)
    requires
        completion(u, t.len() as int),
        table_wf(t),
        t.len() < usize::MAX,
        triples_entered(t),
        owned_upto(t, p),
        1 <= p.1 < p.0 < e < t.len(),
        agree_before(u, t, pos(p)),
        entered(u, e, p.0 as int, p.1 as int),
        t[p.0 as int][p.1 as int] != Some(e as usize),
        p.1 < i < t.len(),
        t[i][p.1 as int] is Some,
    ensures
        !(holds(t[i][p.1 as int], e) || i == e),
{
    let n = t.len() as int;
    let p0 = p.0 as int;
    let p1 = p.1 as int;
    lemma_entry(t, i, p1);
    if holds(t[i][p1], e) {
        let hi = if e > i { e } else { i };
        let mid = if e > i { i } else { e };
        assert(order3(e, i, p1) == (hi, mid, p1));
        assert(mid != p0);
        assert(u[mid][p1] == t[mid][p1]);
        lemma_entry(u, mid, p1);
        assert(order3(hi, mid, p1) == (hi, mid, p1));
    } else if i == e {
        let x = t[e][p1]->0 as int;
        let s = order3(x, e, p1);
        if s.1 == p0 && s.2 == p1 {
            assert(x == p0);
            assert(order3(p0, e, p1) == (e, p0, p1));
        } else {
            assert(before((s.1, s.2), pos(p)));
            assert(u[s.1][s.2] == t[s.1][s.2]);
            lemma_entry(u, s.1, s.2);
            assert(order3(s.0, s.1, s.2) == s);
            assert(u[e][p1] == Some(x as usize));
            assert(x == p0);
            assert(order3(p0, e, p1) == (e, p0, p1));
        }
    }
}

/// Such a completion has `e` in no cell of column `p.1` of `t` that the search reads.
proof fn lemma_candidate_col(u: Seq<Seq<Option<usize>>>, t: Seq<Seq<Option<usize>>>, p: (usize, usize), e: int)
    requires
        completion(u, t.len() as int),
        table_wf(t),
        t.len() < usize::MAX,
        triples_entered(t),
        owned_upto(t, p),
        1 <= p.1 < p.0 < e < t.len(),
        agree_before(u, t, pos(p)),
        entered(u, e, p.0 as int, p.1 as int),
        t[p.0 as int][p.1 as int] != Some(e as usize),
    ensures
        !in_col(t, p, e, t.len() as int),
{
    let n = t.len() as int;
    let p1 = p.1 as int;
    if in_col(t, p, e, n) {
        let i = choose|i: int|
            row_start(p1) <= i < n && #[trigger] t[i][p1] is Some && (holds(t[i][p1], e) || i == e);
        lemma_candidate_col_at(u, t, p, e, i);
    }
}

/// A completion that agrees with `t` before cell `p` and holds more at `p` holds there a
/// candidate of `t` at `p` that the search does not rule out.
proof fn lemma_candidate(u: Seq<Seq<Option<usize>>>, t: Seq<Seq<Option<usize>>>, p: (usize, usize))
    requires
        completion(u, t.len() as int),
        table_wf(t),
        t.len() < usize::MAX,
        triples_entered(t),
        owned_upto(t, p),
        1 <= p.1 < p.0 < t.len(),
        outruns_at(u, t, pos(p)),
    ensures
        u[p.0 as int][p.1 as int] matches Some(e) && e > p.0 && least_candidate(t, p) <= e < t.len() && !ruled_out(
            t,
            p,
            least_candidate(t, p),
            e as int,
        ),
{
    let p0 = p.0 as int;
    let p1 = p.1 as int;
    assert(u[p0][p1] is Some);
    let e = u[p0][p1]->0 as int;
    lemma_entry(u, p0, p1);
    if e < p0 {
        assert forall|r: int, c: int| 0 <= c < r < u.len() && before((r, c), pos(p)) implies #[trigger] t[r][c] == u[r][c] by {
            assert(u[r][c] == t[r][c]);
        }
        lemma_forced(t, u, pos(p));
    }
    assert(order3(e, p0, p1) == (e, p0, p1));
    assert(e < t.len());
    lemma_candidate_row(u, t, p, e);
    lemma_candidate_col(u, t, p, e);
}

/// A completion has an odd number of elements.
pub(crate) proof fn lemma_completion_odd(u: Seq<Seq<Option<usize>>>, n: int)
    requires
        completion(u, n),
        1 <= n < usize::MAX,
    ensures
        n % 2 == 1,
{
    reveal(triples_entered);
    lemma_odd_rows(u);
}

/// No completion lies behind a fresh table up to the search's first cell `(3, 1)`.
pub proof fn lemma_fresh_misses_none(t: Seq<Seq<Option<usize>>>)
    requires
        table_wf(t),
        1 <= t.len() < usize::MAX,
        forall|i: int, j: int| 0 <= j < i < t.len() ==> #[trigger] t[i][j] == initial_cell(t.len() as int, i, j),
    ensures
        none_missed(t, (3usize, 1usize)),
{
    reveal(none_missed);
    reveal(all_beyond);
    let n = t.len() as int;
    lemma_fresh_sound(t);
    lemma_fold(t);
    assert forall|u: Seq<Seq<Option<usize>>>| #[trigger] completion(u, n) implies not_behind(u, t, pos((3usize, 1usize))) by {
        lemma_completion_odd(u, n);
        assert forall|r: int, c: int|
            0 <= c < r < n && before((0, 0), (r, c)) && before((r, c), (3, 1)) implies #[trigger] settled(t, (r, c)) by {
            if c == 1 {
                assert(t[r][c] == initial_cell(n, r, c));
            }
        }
        lemma_agree_across(u, t, (0, 0), (3, 1));
        if 3 < n {
            assert(u[3][1] is Some);
            assert(t[3][1] == initial_cell(n, 3, 1));
            assert(outruns_at(u, t, (3, 1)));
        }
    }
}

/// Walking forward from `p` over filled cells to the front `f` passes no completion: where
/// none lay behind the table up to `p`, each lies ahead of it before `f` or agrees with it
/// there.
pub proof fn lemma_walk_misses_none(t: Seq<Seq<Option<usize>>>, p: (usize, usize), f: (usize, usize))
    requires
        table_wf(t),
        3 <= t.len() < usize::MAX,
        triples_entered(t),
        seeds_kept(t),
        owned_upto(t, p),
        filled_upto(t, f),
        at_or_before(pos(p), pos(f)),
        none_missed(t, p),
    ensures
        forall|u: Seq<Seq<Option<usize>>>| #[trigger] completion(u, t.len() as int) ==> ahead_before(u, t, pos(f)) || agree_before(
            u,
            t,
            pos(f),
        ),
{
    reveal(none_missed);
    reveal(all_beyond);
    let n = t.len() as int;
    assert forall|u: Seq<Seq<Option<usize>>>| #[trigger] completion(u, n) implies ahead_before(u, t, pos(f)) || agree_before(u, t, pos(f)) by {
        lemma_completion_odd(u, n);
        assert(not_behind(u, t, pos(p)));
        if ahead_upto(u, t, pos(p)) {
            let (r, c) = choose|r: int, c: int| 0 <= c < r < n && at_or_before((r, c), pos(p)) && #[trigger] outruns_at(u, t, (r, c));
            if (r, c) == pos(f) {
                assert(agree_before(u, t, pos(f)));
            } else {
                assert(before((r, c), pos(f)));
            }
        } else if pos(p) != pos(f) {
            lemma_settled_between(t, p, f);
            lemma_agree_across(u, t, pos(p), pos(f));
        } else {
            assert(agree_before(u, t, pos(f)));
        }
    }
}

/// Where the front `f` has no candidate, every completion lies ahead of the table before the
/// pointer `p` that the walk started from, or at `p` where the table has an entry there.
pub proof fn lemma_front_fails(t: Seq<Seq<Option<usize>>>, p: (usize, usize), f: (usize, usize))
    requires
        table_wf(t),
        3 <= t.len() < usize::MAX,
        triples_entered(t),
        seeds_kept(t),
        owned_upto(t, p),
        owned_upto(t, f),
        filled_upto(t, f),
        1 <= f.1 < f.0 < t.len(),
        t[f.0 as int][f.1 as int] is None,
        at_or_before(pos(p), pos(f)),
        pos(p) != pos(f) ==> t[p.0 as int][p.1 as int] is Some,
        forall|u: Seq<Seq<Option<usize>>>| #[trigger] completion(u, t.len() as int) ==> ahead_before(u, t, pos(f)) || agree_before(
            u,
            t,
            pos(f),
        ),
        forall|w: int| least_candidate(t, f) <= w < t.len() ==> #[trigger] ruled_out(t, f, least_candidate(t, f), w),
    ensures
        all_beyond(t, p),
{
    reveal(none_missed);
    reveal(all_beyond);
    let n = t.len() as int;
    assert forall|u: Seq<Seq<Option<usize>>>| #[trigger] completion(u, n) implies ahead_before(u, t, pos(p)) || (t[p.0 as int][p.1 as int] is Some
        && outruns_at(u, t, pos(p))) by {
        lemma_completion_odd(u, n);
        if agree_before(u, t, pos(f)) {
            assert(u[f.0 as int][f.1 as int] is Some);
            assert(outruns_at(u, t, pos(f)));
            lemma_candidate(u, t, f);
        }
        let (r, c) = choose|r: int, c: int| 0 <= c < r < n && before((r, c), pos(f)) && #[trigger] outruns_at(u, t, (r, c));
        if !at_or_before((r, c), pos(p)) {
            lemma_settled_between(t, p, f);
            assert(settled(t, (r, c)));
            lemma_settled_agree(u, t, (r, c));
        }
    }
}

/// Entering the least candidate `w` at the front `f` passes no completion.
pub proof fn lemma_front_takes(t: Seq<Seq<Option<usize>>>, f: (usize, usize), w: usize)
    requires
        table_wf(t),
        3 <= t.len() < usize::MAX,
        triples_entered(t),
        owned_upto(t, f),
        1 <= f.1 < f.0 < w < t.len(),
        t[f.0 as int][f.1 as int] is None,
        forall|u: Seq<Seq<Option<usize>>>| #[trigger] completion(u, t.len() as int) ==> ahead_before(u, t, pos(f)) || agree_before(
            u,
            t,
            pos(f),
        ),
        forall|v: int| least_candidate(t, f) <= v < w ==> #[trigger] ruled_out(t, f, least_candidate(t, f), v),
    ensures
        none_missed(with_triple(t, (w, f.0, f.1), false), f),
{
    reveal(none_missed);
    reveal(all_beyond);
    let n = t.len() as int;
    let t3 = with_triple(t, (w, f.0, f.1), false);
    lemma_with_triple(t, (w, f.0, f.1), false);
    assert forall|u: Seq<Seq<Option<usize>>>| #[trigger] completion(u, t3.len() as int) implies not_behind(u, t3, pos(f)) by {
        lemma_frame(u, t, t3, pos(f));
        if ahead_before(u, t, pos(f)) {
            let (r, c) = choose|r: int, c: int| 0 <= c < r < n && before((r, c), pos(f)) && #[trigger] outruns_at(u, t3, (r, c));
            assert(at_or_before((r, c), pos(f)));
        } else {
            assert(u[f.0 as int][f.1 as int] is Some);
            assert(outruns_at(u, t, pos(f)));
            lemma_candidate(u, t, f);
            let e = u[f.0 as int][f.1 as int]->0 as int;
            if e < w {
                assert(ruled_out(t, f, least_candidate(t, f), e));
            }
            if e == w {
                assert(agree_upto(u, t3, pos(f)));
            } else {
                assert(outruns_at(u, t3, pos(f)));
            }
        }
    }
}

/// Entering the least candidate `w` above the entry `v` of the owner cell `c`, in place of
/// `v`'s triple, passes no completion, where every completion lay ahead of the table before
/// `c` or at `c`.
pub proof fn lemma_back_takes(t: Seq<Seq<Option<usize>>>, c: (usize, usize), v: usize, w: usize)
    requires
        table_wf(t),
        3 <= t.len() < usize::MAX,
        triples_entered(t),
        owned_upto(t, c),
        1 <= c.1 < c.0 < v < t.len(),
        c.0 < w < t.len(),
        t[c.0 as int][c.1 as int] == Some(v),
        all_beyond(t, c),
        forall|x: int| least_candidate(t, c) <= x < w ==> #[trigger] ruled_out(t, c, least_candidate(t, c), x),
    ensures
        none_missed(with_triple(with_triple(t, (v, c.0, c.1), true), (w, c.0, c.1), false), c),
{
    reveal(none_missed);
    reveal(all_beyond);
    let n = t.len() as int;
    let t2 = with_triple(t, (v, c.0, c.1), true);
    let t3 = with_triple(t2, (w, c.0, c.1), false);
    lemma_with_triple(t, (v, c.0, c.1), true);
    lemma_with_triple(t2, (w, c.0, c.1), false);
    assert forall|r: int, d: int| 0 <= d < r < n && before((r, d), pos(c)) implies #[trigger] t3[r][d] == t[r][d] by {
        assert(t3[r][d] == t2[r][d]);
    }
    assert forall|u: Seq<Seq<Option<usize>>>| #[trigger] completion(u, t3.len() as int) implies not_behind(u, t3, pos(c)) by {
        lemma_frame(u, t, t3, pos(c));
        if ahead_before(u, t, pos(c)) {
            let (r, d) = choose|r: int, d: int| 0 <= d < r < n && before((r, d), pos(c)) && #[trigger] outruns_at(u, t3, (r, d));
            assert(at_or_before((r, d), pos(c)));
        } else {
            assert(outruns_at(u, t, pos(c)));
            lemma_candidate(u, t, c);
            let e = u[c.0 as int][c.1 as int]->0 as int;
            if e < w {
                assert(ruled_out(t, c, least_candidate(t, c), e));
            }
            if e == w {
                assert(agree_upto(u, t3, pos(c)));
            } else {
                assert(outruns_at(u, t3, pos(c)));
            }
        }
    }
}

/// From a pointer `c` past which every completion lies, the cell before it, where the table
/// `t2` agrees with `t` before `c`, is filled, and has every completion ahead of `t2` up to it.
proof fn lemma_step_back(t: Seq<Seq<Option<usize>>>, t2: Seq<Seq<Option<usize>>>, c: (usize, usize), u: Seq<Seq<Option<usize>>>)
    requires
        table_wf(t2),
        t2.len() == t.len(),
        3 <= t.len() < usize::MAX,
        triples_entered(t2),
        seeds_kept(t2),
        1 <= c.1 < c.0 < t.len(),
        start_row(c.1 as int) <= c.0,
        owned_upto(t2, prev_cell(t.len() as int, c)),
        filled_upto(t, c),
        forall|r: int, d: int| 0 <= d < r < t.len() && before((r, d), pos(c)) ==> #[trigger] t2[r][d] == t[r][d],
        completion(u, t.len() as int),
        ahead_before(u, t, pos(c)),
    ensures
        ahead_before(u, t2, pos(prev_cell(t.len() as int, c))) || (t2[prev_cell(t.len() as int, c).0 as int][prev_cell(
            t.len() as int,
            c,
        ).1 as int] is Some && outruns_at(u, t2, pos(prev_cell(t.len() as int, c)))),
{
    let n = t.len() as int;
    let q = prev_cell(n, c);
    lemma_completion_odd(u, n);
    assert(filled_upto(t2, c)) by {
        assert forall|r: int, d: int| walk_cell(n, r, d) && before((r, d), pos(c)) implies #[trigger] t2[r][d] is Some by {
            assert(t[r][d] is Some);
        }
    }
    lemma_frame(u, t, t2, pos(c));
    lemma_settled_between(t2, q, c);
    lemma_ahead_across(u, t2, pos(q), pos(c));
    lemma_filled_before(t2, c);
    assert(0 <= q.1 < q.0 <= n - 2);
    assert(before(pos(q), pos(c)));
    assert(t2[q.0 as int][q.1 as int] is Some);
}

/// Where the owner cell `c` has no candidate above its entry `v`, clearing `v`'s triple and
/// stepping back leaves every completion ahead of the table before the cell before `c`, or at
/// that cell.
pub proof fn lemma_back_fails(t: Seq<Seq<Option<usize>>>, c: (usize, usize), v: usize)
    requires
        table_wf(t),
        3 <= t.len() < usize::MAX,
        triples_entered(t),
        triples_entered(with_triple(t, (v, c.0, c.1), true)),
        seeds_kept(with_triple(t, (v, c.0, c.1), true)),
        owned_upto(t, c),
        owned_upto(with_triple(t, (v, c.0, c.1), true), prev_cell(t.len() as int, c)),
        filled_upto(t, c),
        1 <= c.1 < c.0 < v < t.len(),
        start_row(c.1 as int) <= c.0,
        t[c.0 as int][c.1 as int] == Some(v),
        all_beyond(t, c),
        forall|x: int| least_candidate(t, c) <= x < t.len() ==> #[trigger] ruled_out(t, c, least_candidate(t, c), x),
    ensures
        all_beyond(with_triple(t, (v, c.0, c.1), true), prev_cell(t.len() as int, c)),
{
    reveal(none_missed);
    reveal(all_beyond);
    let n = t.len() as int;
    let t2 = with_triple(t, (v, c.0, c.1), true);
    lemma_with_triple(t, (v, c.0, c.1), true);
    assert forall|u: Seq<Seq<Option<usize>>>| #[trigger] completion(u, t2.len() as int) implies ahead_before(u, t2, pos(prev_cell(n, c)))
        || (t2[prev_cell(n, c).0 as int][prev_cell(n, c).1 as int] is Some && outruns_at(u, t2, pos(prev_cell(n, c)))) by {
        if outruns_at(u, t, pos(c)) {
            lemma_candidate(u, t, c);
        }
        lemma_step_back(t, t2, c, u);
    }
}

/// Stepping back over a cell `c` that owns no triple leaves every completion ahead of the
/// table before the cell before `c`, or at that cell.
pub proof fn lemma_back_skips(t: Seq<Seq<Option<usize>>>, c: (usize, usize))
    requires
        table_wf(t),
        3 <= t.len() < usize::MAX,
        triples_entered(t),
        seeds_kept(t),
        owned_upto(t, prev_cell(t.len() as int, c)),
        filled_upto(t, c),
        1 <= c.1 < c.0 < t.len(),
        start_row(c.1 as int) <= c.0,
        !(t[c.0 as int][c.1 as int] matches Some(e) && e > c.0 && e > c.1),
        all_beyond(t, c),
    ensures
        all_beyond(t, prev_cell(t.len() as int, c)),
{
    reveal(none_missed);
    reveal(all_beyond);
    let n = t.len() as int;
    assert forall|u: Seq<Seq<Option<usize>>>| #[trigger] completion(u, n) implies ahead_before(u, t, pos(prev_cell(n, c)))
        || (t[prev_cell(n, c).0 as int][prev_cell(n, c).1 as int] is Some && outruns_at(u, t, pos(prev_cell(n, c)))) by {
        lemma_completion_odd(u, n);
        if t[c.0 as int][c.1 as int] is Some && outruns_at(u, t, pos(c)) {
            lemma_entry(t, c.0 as int, c.1 as int);
            lemma_settled_agree(u, t, pos(c));
        }
        lemma_step_back(t, t, c, u);
    }
}

/// Once the search has stepped back into the first column with every completion ahead of its
/// table, there is none: the first column is the fresh table's in all of them.
pub proof fn lemma_search_exhausted(t: Seq<Seq<Option<usize>>>, p: (usize, usize))
    requires
        table_wf(t),
        3 <= t.len() < usize::MAX,
        triples_entered(t),
        seeds_kept(t),
        p.1 == 0,
        1 <= p.0 < t.len(),
        all_beyond(t, p),
    ensures
        forall|u: Seq<Seq<Option<usize>>>| !completion(u, t.len() as int),
{
    reveal(none_missed);
    reveal(all_beyond);
    let n = t.len() as int;
    assert forall|u: Seq<Seq<Option<usize>>>| !completion(u, n) by {
        if completion(u, n) {
            lemma_completion_odd(u, n);
            if ahead_before(u, t, pos(p)) {
                let (r, c) = choose|r: int, c: int| 0 <= c < r < n && before((r, c), pos(p)) && #[trigger] outruns_at(u, t, (r, c));
                lemma_settled_agree(u, t, (r, c));
            } else {
                lemma_settled_agree(u, t, pos(p));
            }
        }
    }
}

/// No table on an even number of elements is a completion: the first column pairs up.
pub proof fn lemma_no_completion_even(n: int)
    requires
        1 <= n < usize::MAX,
        n % 2 == 0,
    ensures
        forall|u: Seq<Seq<Option<usize>>>| !completion(u, n),
{
    assert forall|u: Seq<Seq<Option<usize>>>| !completion(u, n) by {
        if completion(u, n) {
            lemma_completion_odd(u, n);
        }
    }
}

/// Walking forward over filled cells moves the pointer on in the search's order.
pub proof fn lemma_walk_forward(t: Seq<Seq<Option<usize>>>, p: (usize, usize), k: nat)
    requires
        table_wf(t),
        t.len() < usize::MAX,
        forall|j: nat| j < k ==> #[trigger] cell(t, walk(t.len() as int, p, j)) is Some,
    ensures
        at_or_before(pos(p), pos(walk(t.len() as int, p, k))),
    decreases k,
{
    if k > 0 {
        let n = t.len() as int;
        let k1 = (k - 1) as nat;
        lemma_walk_forward(t, p, k1);
        lemma_walk_next(n, p, k1);
        let q = walk(n, p, k1);
        assert(cell(t, q) is Some);
        assert(t[q.0 as int].len() == q.0);
        assert(before(pos(q), pos(next_cell(n, q))));
    }
}

/// The visited cells before `q` stay filled in a table that agrees, up to `q`, with one whose
/// visited cells before `p` are filled, where `q` is at or before `p`.
pub proof fn lemma_filled_kept(t0: Seq<Seq<Option<usize>>>, t1: Seq<Seq<Option<usize>>>, p: (usize, usize), q: (usize, usize))
    requires
        t1.len() == t0.len(),
        filled_upto(t0, p),
        at_or_before(pos(q), pos(p)),
        forall|r: int, c: int|
            0 <= c < r < t0.len() && (before((r, c), (q.0 as int, q.1 as int)) || (r == q.0 && c == q.1)) ==> #[trigger] t1[r][c]
                == t0[r][c],
    ensures
        filled_upto(t1, q),
{
    let n = t0.len() as int;
    assert forall|r: int, c: int| walk_cell(n, r, c) && before((r, c), pos(q)) implies #[trigger] t1[r][c] is Some by {
        assert(t0[r][c] is Some);
        assert(t1[r][c] == t0[r][c]);
    }
}

} // verus!
