use vstd::prelude::*;
use vstd::string::*;
use crate::text::{replace_all, replaced};
use crate::exhaustive::{
    all_beyond, completion, lemma_fold, lemma_fresh_misses_none, lemma_no_completion_even, lemma_search_exhausted,
    lemma_walk_misses_none, none_missed,
};
use crate::older_exhaustive::{
    lemma_filled_walk, lemma_older_back_fails, lemma_older_back_skips, lemma_older_back_takes, lemma_older_filled_kept,
    lemma_older_front_fails, lemma_older_front_takes, lemma_older_walk_forward,
};
use crate::systems::lemma_no_system;
use crate::counting::{cell_ok, full, law_full_table_is_steiner, lemma_full_column_odd, pair_cell};
use crate::batches::{header_ok, steiner_system, table_triples};
use crate::consistency::{
    cell_of, consistent, entered, lemma_cell_names_triple, lemma_clear_sound, lemma_enter_keeps,
    lemma_fresh_sound, lemma_unowned_here, order3, owned_upto, sound, unowned_at,
};
use crate::tables::{render, renderable, rows_of, table_text};
use crate::binary_collections::{strictly_sorted, sorted, BinaryCollection, BinaryResizableCollection};
use crate::triples_array::{
    before, cell, descending, entry_digit, holds, initial_cell, lemma_rank_bound, lemma_rank_step,
    lemma_with_triple, power, rank, table_wf, with_triple, has_cell,
};

verus! {

// An older form of the search for Steiner triple systems: the same table of triples, walked
// down every row of each column, and tests that build on it.

/// A table of triples and the cell that the search works on.
#[derive(Debug)]
pub struct TriplesArray {
    pub arr: Vec<Vec<Option<usize>>>,
    pub pointer: (usize, usize),
}

/// The cell after `p` in the order in which this search fills a table of `n` rows: down its
/// column to the last row, then on to the next column, just below the diagonal.
pub open spec fn next_cell(n: int, p: (usize, usize)) -> (usize, usize) {
    if p.0 == n - 1 {
        ((p.1 + 2) as usize, (p.1 + 1) as usize)
    } else {
        ((p.0 + 1) as usize, p.1)
    }
}

/// The cell `k` steps after `p` in this search's order.
pub open spec fn walk(n: int, p: (usize, usize), k: nat) -> (usize, usize)
    decreases k,
{
    if k == 0 {
        p
    } else {
        walk(n, next_cell(n, p), (k - 1) as nat)
    }
}

/// The cell before `p` when this search steps back: up its column to the row below the
/// diagonal, then to row `n - 2` of the column before.
pub open spec fn prev_cell(n: int, p: (usize, usize)) -> (usize, usize) {
    if p.0 == p.1 + 1 {
        ((n - 2) as usize, (p.1 - 1) as usize)
    } else {
        ((p.0 - 1) as usize, p.1)
    }
}

/// Every cell of `t` before `p` holds an entry.
pub open spec fn filled_before(t: Seq<Seq<Option<usize>>>, p: (usize, usize)) -> bool {
    forall|r: int, c: int|
        0 <= c < r < t.len() && before((r, c), (p.0 as int, p.1 as int)) ==> #[trigger] t[r][c] is Some
}

/// The pointer lies where this search can step back from without leaving the table.
pub open spec fn on_track(n: int, p: (usize, usize)) -> bool {
    p.1 >= 1 ==> p.1 + 1 <= p.0 && p.1 <= n - 2
}

/// Candidate `v` lies in row `p.0` of `t`, as the entry or the column of a filled cell among
/// its first `upto` cells.
pub open spec fn in_row(t: Seq<Seq<Option<usize>>>, p: (usize, usize), v: int, upto: int) -> bool {
    exists|j: int| 0 <= j < upto && #[trigger] t[p.0 as int][j] is Some && (holds(t[p.0 as int][j], v) || j == v)
}

/// Candidate `v` lies in column `p.1` of `t`, as the entry or the row of a filled cell, among
/// the rows from `p.1 + 1` up to `upto`.
pub open spec fn in_col(t: Seq<Seq<Option<usize>>>, p: (usize, usize), v: int, upto: int) -> bool {
    exists|i: int| p.1 + 1 <= i < upto && #[trigger] t[i][p.1 as int] is Some && (holds(t[i][p.1 as int], v) || i == v)
}

/// Candidate `v` for the cell at `p` is ruled out: it is at least `lo`, and lies in row `p.0`
/// or column `p.1`, or is one of the cell's own elements.
pub open spec fn ruled_out(t: Seq<Seq<Option<usize>>>, p: (usize, usize), lo: int, v: int) -> bool {
    v >= lo && (in_row(t, p, v, p.0 as int) || in_col(t, p, v, t.len() as int) || v == p.0 || v == p.1)
}

/// The least candidate for the cell at `p`: above the cell's entry, from `0` when it has none.
pub open spec fn least_candidate(t: Seq<Seq<Option<usize>>>, p: (usize, usize)) -> int {
    match cell(t, p) {
        Some(e) => e + 1,
        None => 0,
    }
}

/// `v` is the least candidate for the cell at `p` that nothing rules out, and it is an
/// element.
pub open spec fn is_least_valid(t: Seq<Seq<Option<usize>>>, p: (usize, usize), v: usize) -> bool {
    let lo = least_candidate(t, p);
    &&& lo <= v < t.len()
    &&& !ruled_out(t, p, lo, v as int)
    &&& forall|w: int| lo <= w < v ==> #[trigger] ruled_out(t, p, lo, w)
}

/// The least valid candidate for the cell at `p`, if there is one (see `is_least_valid`).
pub open spec fn least_valid(t: Seq<Seq<Option<usize>>>, p: (usize, usize)) -> Option<usize> {
    if exists|v: usize| is_least_valid(t, p, v) {
        Some(choose|v: usize| is_least_valid(t, p, v))
    } else {
        None
    }
}

/// The first cell at or after `p`, in this search's order, that is empty or lies outside the
/// table.
pub open spec fn front(t: Seq<Seq<Option<usize>>>, p: (usize, usize)) -> (usize, usize)
    decreases t.len() - p.1, t.len() - p.0,
{
    if t.len() < usize::MAX && p.1 < p.0 < t.len() && cell(t, p) is Some {
        front(t, next_cell(t.len() as int, p))
    } else {
        p
    }
}

/// Where stepping back from `q` in a table of `n` rows ends: the table, the pointer and the
/// answer. At the first column it stops with `Some(false)`. At a cell that holds the largest
/// element of its triple, the triple is cleared; when the cell has a valid candidate, the
/// triple of the cell and that candidate is entered in its place, with the answer `None`;
/// otherwise the search steps back on from the cell before.
pub open spec fn back(n: int, t: Seq<Seq<Option<usize>>>, q: (usize, usize)) -> (
    Seq<Seq<Option<usize>>>,
    (usize, usize),
    Option<bool>,
)
    decreases q.1, q.0,
{
    if q.1 == 0 || q.0 < q.1 + 1 {
        (t, q, Some(false))
    } else if cell(t, q) is Some && cell(t, q)->0 > q.0 && cell(t, q)->0 > q.1 {
        let e = cell(t, q)->0;
        let cleared = with_triple(t, descending((e, q.1, q.0)), true);
        match least_valid(t, q) {
            Some(v) => (with_triple(cleared, descending((v, q.0, q.1)), false), q, None),
            None => back(n, cleared, prev_cell(n, q)),
        }
    } else {
        back(n, t, prev_cell(n, q))
    }
}

/// What one step of this search makes of table `t` with the pointer at `p`: the table, the
/// pointer and the answer. From the first empty cell at or after `p` (see `front`), it answers
/// `Some(true)` when that lies outside the table; enters the triple of the cell and its least
/// valid candidate, answering `None`; or, with no candidate, steps back (see `back`).
pub open spec fn step_result(t: Seq<Seq<Option<usize>>>, p: (usize, usize)) -> (
    Seq<Seq<Option<usize>>>,
    (usize, usize),
    Option<bool>,
) {
    let f = front(t, p);
    if !(f.1 < f.0 < t.len()) {
        (t, f, Some(true))
    } else {
        match least_valid(t, f) {
            Some(v) => (with_triple(t, descending((f.0, f.1, v)), false), f, None),
            None => back(t.len() as int, t, f),
        }
    }
}

/// The answer of `min_valid_value_at` at a cell below the diagonal is its least valid
/// candidate.
proof fn lemma_least_valid(t: Seq<Seq<Option<usize>>>, p: (usize, usize), r: Option<usize>)
    requires
        r matches Some(v) ==> is_least_valid(t, p, v),
        r is None ==> forall|w: int| least_candidate(t, p) <= w < t.len() ==> #[trigger] ruled_out(
            t,
            p,
            least_candidate(t, p),
            w,
        ),
    ensures
        r == least_valid(t, p),
{
    let lo = least_candidate(t, p);
    if let Some(v) = r {
        let c = choose|c: usize| is_least_valid(t, p, c);
        assert(is_least_valid(t, p, c));
        if c < v {
            assert(ruled_out(t, p, lo, c as int));
        } else if v < c {
            assert(ruled_out(t, p, lo, v as int));
        }
    } else {
        if exists|v: usize| is_least_valid(t, p, v) {
            let c = choose|c: usize| is_least_valid(t, p, c);
            assert(ruled_out(t, p, lo, c as int));
        }
    }
}

impl TriplesArray {
    /// The table, row by row.
    pub open spec fn table(&self) -> Seq<Seq<Option<usize>>> {
        self.arr@.map_values(|row: Vec<Option<usize>>| row@)
    }

    /// The cell that an optional pointer names: the pointer itself, or the saved one.
    pub open spec fn target(&self, pointer: Option<(usize, usize)>) -> (usize, usize) {
        match pointer {
            Some(p) => p,
            None => self.pointer,
        }
    }

    /// The table is triangular and its entries are elements (see `table_wf`).
    pub open spec fn wf(&self) -> bool {
        &&& self.arr.len() < usize::MAX
        &&& table_wf(self.table())
    }

    /// The three cells of triple `t` lie in the table.
    pub open spec fn holds_cells(&self, t: (usize, usize, usize)) -> bool {
        let s = descending(t);
        &&& has_cell(self.table(), s.0 as int, s.1 as int)
        &&& has_cell(self.table(), s.0 as int, s.2 as int)
        &&& has_cell(self.table(), s.1 as int, s.2 as int)
    }

    /// The number of elements.
    pub fn len(&self) -> (r: usize)
        ensures
            r == self.table().len(),
    {
        self.arr.len()
    }

    /// The number of elements.
    pub fn omicron(&self) -> (r: usize)
        ensures
            r == self.table().len(),
    {
        self.len()
    }

    /// Enters a triple: each of its three cells gets the third element.
    pub fn set_triple(&mut self, triple: (usize, usize, usize))
        requires
            old(self).holds_cells(triple),
        ensures
            final(self).table() == with_triple(old(self).table(), descending(triple), false),
            final(self).pointer == old(self).pointer,
    {
        let mut t = triple;
        if t.0 < t.1 {
            let x = t.0;
            t.0 = t.1;
            t.1 = x;
        }
        if t.1 < t.2 {
            let x = t.1;
            t.1 = t.2;
            t.2 = x;
        }
        if t.0 < t.1 {
            let x = t.0;
            t.0 = t.1;
            t.1 = x;
        }
        let ghost t0 = self.table();
        self.arr[t.0][t.1] = Some(t.2);
        self.arr[t.0][t.2] = Some(t.1);
        self.arr[t.1][t.2] = Some(t.0);
        proof {
            assert(self.table() =~= with_triple(t0, t, false));
        }
    }

    /// Clears a triple's three cells.
    pub fn remove_triple(&mut self, triple: (usize, usize, usize))
        requires
            old(self).holds_cells(triple),
        ensures
            final(self).table() == with_triple(old(self).table(), descending(triple), true),
            final(self).pointer == old(self).pointer,
    {
        let mut t = triple;
        if t.0 < t.1 {
            let x = t.0;
            t.0 = t.1;
            t.1 = x;
        }
        if t.1 < t.2 {
            let x = t.1;
            t.1 = t.2;
            t.2 = x;
        }
        if t.0 < t.1 {
            let x = t.0;
            t.0 = t.1;
            t.1 = x;
        }
        let ghost t0 = self.table();
        self.arr[t.0][t.1] = None;
        self.arr[t.0][t.2] = None;
        self.arr[t.1][t.2] = None;
        proof {
            assert(self.table() =~= with_triple(t0, t, true));
        }
    }

    /// Clears the triple through a cell (the saved pointer's where none is given), if it holds
    /// one.
    pub fn unset(&mut self, pointer: Option<(usize, usize)>)
        requires
            cell(old(self).table(), old(self).target(pointer)) matches Some(e) ==> old(self).holds_cells(
                (e, old(self).target(pointer).1, old(self).target(pointer).0),
            ),
        ensures
            final(self).table() == (match cell(old(self).table(), old(self).target(pointer)) {
                Some(e) => with_triple(
                    old(self).table(),
                    descending((e, old(self).target(pointer).1, old(self).target(pointer).0)),
                    true,
                ),
                None => old(self).table(),
            }),
            final(self).pointer == old(self).pointer,
    {
        let e = match self.get(pointer) {
            Some(e) => e,
            None => return ,
        };
        let p = match pointer {
            Some(q) => q,
            None => self.pointer,
        };
        self.remove_triple((e, p.1, p.0));
    }

    /// The entry of a cell (the saved pointer's where none is given), `None` outside the table.
    pub fn get(&self, pointer: Option<(usize, usize)>) -> (r: Option<usize>)
        ensures
            r == cell(self.table(), self.target(pointer)),
    {
        let p = match pointer {
            Some(q) => q,
            None => self.pointer,
        };
        if p.0 < self.arr.len() && p.1 < self.arr[p.0].len() {
            self.arr[p.0][p.1]
        } else {
            None
        }
    }

    /// The cell (the saved pointer's where none is given) holds the largest element of its
    /// triple.
    pub fn is_first_in_triple(&self, pointer: Option<(usize, usize)>) -> (r: bool)
        ensures
            r == (cell(self.table(), self.target(pointer)) matches Some(e) && e > self.target(pointer).0
                && e > self.target(pointer).1),
    {
        let p = match pointer {
            Some(q) => q,
            None => self.pointer,
        };
        match self.get(pointer) {
            Some(e) => e > p.0 && e > p.1,
            None => false,
        }
    }

    /// The pointer (the saved one where none is given) names a cell below the diagonal.
    pub fn pointer_inbounds(&self, pointer: Option<(usize, usize)>) -> (r: bool)
        ensures
            r == (self.target(pointer).0 < self.table().len() && self.target(pointer).1
                < self.target(pointer).0),
    {
        let p = match pointer {
            Some(q) => q,
            None => self.pointer,
        };
        p.0 < self.len() && p.1 < p.0
    }

    /// A fresh search on `omicron` elements: an empty triangular table holding the triples
    /// `{2 * i, 2 * i - 1, 0}` with `0 < 2 * i < omicron`, and the pointer at `(3, 1)`.
    pub fn new(omicron: usize) -> (r: TriplesArray)
        requires
            omicron < usize::MAX,
        ensures
            r.wf(),
            r.table().len() == omicron,
            forall|i: int, j: int| 0 <= j < i < omicron ==> #[trigger] r.table()[i][j] == initial_cell(omicron as int, i, j),
            r.pointer == (3usize, 1usize),
            sound(r.table(), r.pointer),
            omicron % 2 == 1 && omicron >= 3 ==> filled_before(r.table(), r.pointer),
            omicron % 2 == 0 && omicron >= 4 ==> filled_but_corner(r.table(), r.pointer),
    {
        let mut arr: Vec<Vec<Option<usize>>> = Vec::new();
        let mut i: usize = 0;
        while i < omicron
            invariant
                0 <= i <= omicron,
                arr.len() == i,
                forall|r: int| 0 <= r < i ==> #[trigger] arr@[r]@.len() == r,
                forall|r: int, c: int| 0 <= c < r < i ==> #[trigger] arr@[r]@[c] == None::<usize>,
            decreases omicron - i,
        {
            let mut row: Vec<Option<usize>> = Vec::new();
            let mut j: usize = 0;
            while j < i
                invariant
                    0 <= j <= i,
                    row.len() == j,
                    forall|c: int| 0 <= c < j ==> #[trigger] row@[c] == None::<usize>,
                decreases i - j,
            {
                row.push(None);
                j += 1;
            }
            arr.push(row);
            i += 1;
        }
        let mut this = TriplesArray { arr, pointer: (3, 1) };
        let half = (1 + omicron) / 2;
        let mut k: usize = 1;
        while k < half
            invariant
                1 <= k <= half || half == 0,
                half == (1 + omicron) / 2,
                this.table().len() == omicron,
                omicron < usize::MAX,
                this.pointer == (3usize, 1usize),
                forall|r: int| 0 <= r < omicron ==> #[trigger] this.table()[r].len() == r,
                forall|r: int, c: int| 0 <= c < r < omicron ==> #[trigger] this.table()[r][c] == (if r < 2 * k - 1 {
                    initial_cell(omicron as int, r, c)
                } else {
                    None
                }),
            decreases half - k,
        {
            assert(2 * k < omicron);
            let ghost t0 = this.table();
            this.set_triple((2 * k, 2 * k - 1, 0));
            proof {
                assert(descending(((2 * k) as usize, (2 * k - 1) as usize, 0usize)) == ((2 * k) as usize, (2 * k - 1) as usize, 0usize));
                assert forall|r: int, c: int| 0 <= c < r < omicron implies #[trigger] this.table()[r][c] == (if r < 2 * (k + 1) - 1 {
                    initial_cell(omicron as int, r, c)
                } else {
                    None
                }) by {
                    if r == 2 * k - 1 || r == 2 * k {
                    } else {
                        assert(this.table()[r] == t0[r]);
                    }
                }
            }
            k += 1;
        }
        proof {
            assert forall|r: int, c: int| 0 <= c < r < omicron implies #[trigger] this.table()[r][c] == initial_cell(omicron as int, r, c) by {
                if r >= 2 * k - 1 {
                    assert(r >= 2 * half - 1 || half == 0);
                }
            }
            assert(this.wf());
            lemma_fresh_sound(this.table());
            let n = omicron as int;
            if n % 2 == 1 && n >= 3 {
                lemma_fresh_filled(this.table(), n);
            }
            if n % 2 == 0 && n >= 4 {
                assert(this.table()[n - 1][0] == initial_cell(n, n - 1, 0));
                assert forall|r: int, c: int|
                    0 <= c < r < n && before((r, c), (3, 1)) && !(r == n - 1 && c == 0) implies #[trigger] this.table()[r][c]
                    is Some by {
                    assert(this.table()[r][c] == initial_cell(n, r, c));
                }
            }
        }
        this
    }

    /// Steps the pointer back to the cell before it (see `prev_cell`).
    pub fn decrement_pointer(&mut self)
        requires
            old(self).pointer.1 + 1 <= usize::MAX,
            old(self).pointer.0 == old(self).pointer.1 + 1 ==> old(self).pointer.1 >= 1 && old(self).table().len() >= 2,
            old(self).pointer.0 != old(self).pointer.1 + 1 ==> old(self).pointer.0 >= 1,
        ensures
            final(self).pointer == prev_cell(old(self).table().len() as int, old(self).pointer),
            final(self).arr == old(self).arr,
    {
        if self.pointer.0 == self.pointer.1 + 1 {
            self.pointer.1 = self.pointer.1 - 1;
            self.pointer.0 = self.arr.len() - 2;
        } else {
            self.pointer.0 = self.pointer.0 - 1;
        }
    }

    /// Moves the pointer forward, in this search's order, while it names a filled cell of the
    /// table.
    pub fn move_pointer(&mut self)
        requires
            old(self).wf(),
        ensures
            exists|k: nat| {
                &&& final(self).pointer == walk(old(self).table().len() as int, old(self).pointer, k)
                &&& forall|j: nat| j < k ==> #[trigger] cell(
                    old(self).table(),
                    walk(old(self).table().len() as int, old(self).pointer, j),
                ) is Some
            },
            !(final(self).pointer.1 < final(self).pointer.0 < final(self).table().len()) || cell(
                final(self).table(),
                final(self).pointer,
            ) is None,
            final(self).arr == old(self).arr,
            final(self).pointer == front(old(self).table(), old(self).pointer),
    {
        let ghost n = self.table().len() as int;
        let ghost start = self.pointer;
        let ghost mut k: nat = 0;
        while self.pointer_inbounds(None) && self.get(None).is_some()
            invariant
                self.wf(),
                front(self.table(), self.pointer) == front(old(self).table(), start),
                n == self.table().len(),
                self.arr == old(self).arr,
                self.pointer == walk(n, start, k),
                start == old(self).pointer,
                forall|j: nat| j < k ==> #[trigger] cell(self.table(), walk(n, start, j)) is Some,
            decreases self.arr.len() - self.pointer.1, self.arr.len() - self.pointer.0,
        {
            proof {
                lemma_walk_next(n, start, k);
            }
            if self.pointer.0 == self.arr.len() - 1 {
                self.pointer.1 = self.pointer.1 + 1;
                self.pointer.0 = self.pointer.1 + 1;
            } else {
                self.pointer.0 = self.pointer.0 + 1;
            }
            proof {
                k = k + 1;
            }
        }
    }

    /// The least element that can go into a cell (the saved pointer's where none is given):
    /// above the cell's entry, and ruled out neither by the cell's row nor by its column nor as
    /// one of the cell's own elements (see `ruled_out`); `None` when there is none below
    /// `omicron`, or when the pointer names no cell below the diagonal.
    pub fn min_valid_value_at(&self, pointer: Option<(usize, usize)>) -> (r: Option<usize>)
        requires
            self.target(pointer).1 < self.target(pointer).0 < self.table().len() ==> self.wf(),
        ensures
            ({
                let t = self.table();
                let p = self.target(pointer);
                let lo = least_candidate(t, p);
                &&& !(p.1 < p.0 < t.len()) ==> r is None
                &&& p.1 < p.0 < t.len() ==> {
                    &&& r matches Some(v) ==> lo <= v < t.len() && !ruled_out(t, p, lo, v as int) && forall|w: int|
                        lo <= w < v ==> #[trigger] ruled_out(t, p, lo, w)
                    &&& r is None ==> forall|w: int| lo <= w < t.len() ==> #[trigger] ruled_out(t, p, lo, w)
                }
            }),
    {
        if !self.pointer_inbounds(pointer) {
            return None;
        }
        let ghost t = self.table();
        let p = match pointer {
            Some(q) => q,
            None => self.pointer,
        };
        let n = self.arr.len();
        proof {
            assert(t[p.0 as int].len() == p.0);
        }
        let mut min: usize = match self.get(pointer) {
            Some(l) => l + 1,
            None => 0,
        };
        let ghost lo = min as int;
        assert(lo == least_candidate(t, p));
        if min == n {
            return None;
        }
        let mut invalids: Vec<usize> = Vec::new();
        proof {
            assert(invalids.items() =~= Seq::<int>::empty());
        }
        let mut i: usize = 0;
        while i < p.0
            invariant
                0 <= i <= p.0,
                self.table() == t,
                self.wf(),
                p.1 < p.0 < n,
                n == t.len(),
                t[p.0 as int].len() == p.0,
                lo == min,
                strictly_sorted(invalids.items()),
                forall|v: int| #[trigger] invalids.items().contains(v) <==> (v >= lo && in_row(t, p, v, i as int)),
            decreases p.0 - i,
        {
            let ghost before = invalids.items();
            if let Some(inv) = self.arr[p.0][i] {
                if min <= inv {
                    let _ = invalids.b_insert_keep(inv);
                }
                let ghost mid = invalids.items();
                if min <= i {
                    let _ = invalids.b_insert_keep(i);
                }
                proof {
                    assert(invalids.items().to_set() =~= if min <= i { mid.to_set().insert(i as int) } else { mid.to_set() });
                }
            }
            proof {
                assert forall|v: int| #[trigger] invalids.items().contains(v) <==> (v >= lo && in_row(t, p, v, i + 1)) by {
                    assert(invalids.items().contains(v) <==> invalids.items().to_set().contains(v));
                    assert(before.contains(v) <==> before.to_set().contains(v));
                    if in_row(t, p, v, i + 1) && !in_row(t, p, v, i as int) {
                        let j = choose|j: int|
                            0 <= j < i + 1 && #[trigger] t[p.0 as int][j] is Some && (holds(t[p.0 as int][j], v) || j == v);
                        assert(j == i);
                    }
                    if in_row(t, p, v, i as int) {
                        let j = choose|j: int|
                            0 <= j < i && #[trigger] t[p.0 as int][j] is Some && (holds(t[p.0 as int][j], v) || j == v);
                    }
                    if invalids.items().contains(v) && !before.contains(v) {
                        assert(t[p.0 as int][i as int] is Some && (holds(t[p.0 as int][i as int], v) || i == v));
                    }
                }
            }
            i += 1;
        }
        let mut i: usize = p.1 + 1;
        while i < n
            invariant
                p.1 + 1 <= i <= n,
                self.table() == t,
                self.wf(),
                p.1 < p.0 < n,
                n == t.len(),
                lo == min,
                strictly_sorted(invalids.items()),
                forall|v: int| #[trigger] invalids.items().contains(v) <==> (v >= lo && (in_row(t, p, v, p.0 as int) || in_col(t, p, v, i as int))),
            decreases n - i,
        {
            assert(t[i as int].len() == i);
            let ghost before = invalids.items();
            if let Some(inv) = self.arr[i][p.1] {
                if min <= inv {
                    let _ = invalids.b_insert_keep(inv);
                }
                let ghost mid = invalids.items();
                if min <= i {
                    let _ = invalids.b_insert_keep(i);
                }
                proof {
                    assert(invalids.items().to_set() =~= if min <= i { mid.to_set().insert(i as int) } else { mid.to_set() });
                }
            }
            proof {
                assert forall|v: int| #[trigger] invalids.items().contains(v) <==> (v >= lo && (in_row(t, p, v, p.0 as int) || in_col(t, p, v, i + 1))) by {
                    assert(invalids.items().contains(v) <==> invalids.items().to_set().contains(v));
                    assert(before.contains(v) <==> before.to_set().contains(v));
                    if in_col(t, p, v, i + 1) && !in_col(t, p, v, i as int) {
                        let j = choose|j: int|
                            p.1 + 1 <= j < i + 1 && #[trigger] t[j][p.1 as int] is Some && (holds(t[j][p.1 as int], v) || j == v);
                        assert(j == i);
                    }
                    if in_col(t, p, v, i as int) {
                        let j = choose|j: int|
                            p.1 + 1 <= j < i && #[trigger] t[j][p.1 as int] is Some && (holds(t[j][p.1 as int], v) || j == v);
                    }
                    if invalids.items().contains(v) && !before.contains(v) {
                        assert(t[i as int][p.1 as int] is Some && (holds(t[i as int][p.1 as int], v) || i == v));
                    }
                }
            }
            i += 1;
        }
        let ghost before = invalids.items();
        if min <= p.0 {
            let _ = invalids.b_insert_keep(p.0);
        }
        let ghost mid = invalids.items();
        if min <= p.1 {
            let _ = invalids.b_insert_keep(p.1);
        }
        proof {
            assert(mid.to_set() =~= if min <= p.0 { before.to_set().insert(p.0 as int) } else { before.to_set() });
            assert(invalids.items().to_set() =~= if min <= p.1 { mid.to_set().insert(p.1 as int) } else { mid.to_set() });
            assert forall|v: int| #[trigger] invalids.items().contains(v) <==> ruled_out(t, p, lo, v) by {
                assert(invalids.items().contains(v) <==> invalids.items().to_set().contains(v));
                assert(before.contains(v) <==> before.to_set().contains(v));
                assert(mid.contains(v) <==> mid.to_set().contains(v));
            }
            assert forall|v: int| ruled_out(t, p, lo, v) implies v < n by {
                if in_row(t, p, v, p.0 as int) {
                    let j = choose|j: int| 0 <= j < p.0 && #[trigger] t[p.0 as int][j] is Some && (holds(t[p.0 as int][j], v) || j == v);
                    assert(t[p.0 as int][j] matches Some(e) ==> e < n);
                }
                if in_col(t, p, v, n as int) {
                    let j = choose|j: int| p.1 + 1 <= j < n && #[trigger] t[j][p.1 as int] is Some && (holds(t[j][p.1 as int], v) || j == v);
                    assert(t[j][p.1 as int] matches Some(e) ==> e < n);
                }
            }
        }
        if invalids.len() == 0 {
            proof {
                assert(!ruled_out(t, p, lo, min as int)) by {
                    assert(!invalids.items().contains(min as int));
                }
            }
            return Some(min);
        }
        let mut k: usize = 0;
        while k < invalids.len()
            invariant
                0 <= k <= invalids.len(),
                lo <= min <= n,
                n == t.len(),
                t == self.table(),
                p == self.target(pointer),
                p.1 < p.0 < n,
                lo == least_candidate(t, p),
                strictly_sorted(invalids.items()),
                forall|v: int| #[trigger] invalids.items().contains(v) <==> ruled_out(t, p, lo, v),
                forall|v: int| ruled_out(t, p, lo, v) ==> v < n,
                forall|w: int| lo <= w < min ==> #[trigger] ruled_out(t, p, lo, w),
                forall|j: int| 0 <= j < k ==> #[trigger] invalids.items()[j] < min,
            decreases invalids.len() - k,
        {
            let inv = invalids[k];
            assert(invalids.items()[k as int] == inv);
            proof {
                assert(invalids.items().contains(inv as int));
                assert(inv < n);
            }
            if min < inv {
                proof {
                    assert(!invalids.items().contains(min as int)) by {
                        if invalids.items().contains(min as int) {
                            let j = choose|j: int| 0 <= j < invalids.items().len() && invalids.items()[j] == min;
                            if j < k {
                                assert(invalids.items()[j] < min);
                            } else if j > k {
                                assert(invalids.items()[k as int] < invalids.items()[j]);
                            }
                        }
                    }
                }
                return Some(min);
            }
            if inv + 1 > min {
                min = inv + 1;
            }
            proof {
                assert forall|j: int| 0 <= j < k + 1 implies #[trigger] invalids.items()[j] < min by {
                    if j < k {
                        assert(invalids.items()[j] < invalids.items()[k as int] || j == k);
                    }
                }
            }
            k += 1;
        }
        proof {
            assert(!invalids.items().contains(min as int)) by {
                if invalids.items().contains(min as int) {
                    let j = choose|j: int| 0 <= j < invalids.items().len() && invalids.items()[j] == min;
                    assert(invalids.items()[j] < min);
                }
            }
        }
        if min == n {
            None
        } else {
            Some(min)
        }
    }
}

/// Stepping forward over a filled cell keeps every cell before the pointer filled.
proof fn lemma_next_filled(t: Seq<Seq<Option<usize>>>, q: (usize, usize))
    requires
        table_wf(t),
        t.len() < usize::MAX,
        filled_before(t, q),
        cell(t, q) is Some,
    ensures
        filled_before(t, next_cell(t.len() as int, q)),
{
    let n = t.len() as int;
    assert(q.1 < q.0 < n) by {
        assert(t[q.0 as int].len() == q.0);
    }
    let nx = next_cell(n, q);
    assert forall|r: int, c: int| 0 <= c < r < n && before((r, c), (nx.0 as int, nx.1 as int)) implies #[trigger] t[r][c] is Some by {
        if !(r == q.0 && c == q.1) {
            assert(before((r, c), (q.0 as int, q.1 as int)));
        }
    }
}

/// Walking forward over filled cells keeps every cell before the pointer filled.
proof fn lemma_walk_filled(t: Seq<Seq<Option<usize>>>, p: (usize, usize), k: nat)
    requires
        table_wf(t),
        t.len() < usize::MAX,
        filled_before(t, p),
        forall|j: nat| j < k ==> #[trigger] cell(t, walk(t.len() as int, p, j)) is Some,
    ensures
        filled_before(t, walk(t.len() as int, p, k)),
    decreases k,
{
    if k > 0 {
        lemma_walk_filled(t, p, (k - 1) as nat);
        lemma_walk_next(t.len() as int, p, (k - 1) as nat);
        assert(cell(t, walk(t.len() as int, p, (k - 1) as nat)) is Some);
        lemma_next_filled(t, walk(t.len() as int, p, (k - 1) as nat));
    }
}

/// On an even number of elements, every cell before `p` holds an entry but for the first cell
/// of the last row, which is empty: how a fresh table of even size starts, and how this search
/// keeps it.
pub open spec fn filled_but_corner(t: Seq<Seq<Option<usize>>>, p: (usize, usize)) -> bool {
    &&& t.len() % 2 == 0
    &&& t.len() >= 4
    &&& t[t.len() - 1][0] is None
    &&& forall|r: int, c: int|
        0 <= c < r < t.len() && before((r, c), (p.0 as int, p.1 as int)) && !(r == t.len() - 1 && c == 0)
            ==> #[trigger] t[r][c] is Some
}

/// Walking forward over filled cells keeps every cell before the pointer filled, but for the
/// corner.
proof fn lemma_walk_filled_corner(t: Seq<Seq<Option<usize>>>, p: (usize, usize), k: nat)
    requires
        table_wf(t),
        t.len() < usize::MAX,
        filled_but_corner(t, p),
        forall|j: nat| j < k ==> #[trigger] cell(t, walk(t.len() as int, p, j)) is Some,
    ensures
        filled_but_corner(t, walk(t.len() as int, p, k)),
    decreases k,
{
    if k > 0 {
        let n = t.len() as int;
        lemma_walk_filled_corner(t, p, (k - 1) as nat);
        lemma_walk_next(n, p, (k - 1) as nat);
        let q = walk(n, p, (k - 1) as nat);
        assert(cell(t, q) is Some);
        assert(q.1 < q.0 < n) by {
            assert(t[q.0 as int].len() == q.0);
        }
        let nx = next_cell(n, q);
        assert forall|r: int, c: int|
            0 <= c < r < n && before((r, c), (nx.0 as int, nx.1 as int)) && !(r == n - 1 && c == 0) implies #[trigger] t[r][c]
            is Some by {
            if !(r == q.0 && c == q.1) {
                assert(before((r, c), (q.0 as int, q.1 as int)));
            }
        }
    }
}

/// A consistent table of even size cannot have every pair of element `1` filled: the other
/// elements would pair off through `1`'s triples, and there is an odd number of them. So a
/// table filled but for the corner never has the whole of column `1` before its pointer.
proof fn lemma_corner_column(t: Seq<Seq<Option<usize>>>, p: (usize, usize))
    requires
        table_wf(t),
        t.len() < usize::MAX,
        consistent(t),
        filled_but_corner(t, p),
    ensures
        !before((t.len() - 1, 1), (p.0 as int, p.1 as int)),
{
    let n = t.len() as int;
    if before((n - 1, 1), (p.0 as int, p.1 as int)) {
        assert forall|y: int| 0 <= y < n && y != 1 implies #[trigger] cell_ok(t, pair_cell(1, y)) by {
            let x = pair_cell(1, y);
            assert(before(x, (p.0 as int, p.1 as int)));
            assert(t[x.0][x.1] is Some);
        }
        lemma_full_column_odd(t, 1);
    }
}

/// At an empty cell with every cell before it filled but for the corner, in a sound table of
/// even size, every candidate up to the cell's row is ruled out.
proof fn lemma_front_ruled_out_corner(t: Seq<Seq<Option<usize>>>, f: (usize, usize), v: int)
    requires
        table_wf(t),
        t.len() < usize::MAX,
        sound(t, f),
        1 <= f.1 < f.0 < t.len(),
        filled_but_corner(t, f),
        0 <= v <= f.0,
    ensures
        ruled_out(t, f, 0, v),
{
    let n = t.len() as int;
    if v < f.1 {
        assert(before((f.0 as int, v), (f.0 as int, f.1 as int)));
        if f.0 == n - 1 && v == 0 {
            if f.1 == 1 {
                let k = 1int;
                assert(entered(t, 2 * k, 2 * k - 1, 0));
                assert(t[2][1] is Some && holds(t[2][1], 0));
            } else {
                lemma_corner_column(t, f);
            }
        } else {
            assert(t[f.0 as int][v] is Some);
        }
    } else if f.1 < v < f.0 {
        assert(before((v, f.1 as int), (f.0 as int, f.1 as int)));
        assert(t[v][f.1 as int] is Some);
    }
}

/// At an empty cell with every cell before it filled, every candidate up to the cell's row is
/// ruled out.
proof fn lemma_front_ruled_out(t: Seq<Seq<Option<usize>>>, f: (usize, usize), v: int)
    requires
        table_wf(t),
        f.1 < f.0 < t.len(),
        filled_before(t, f),
        0 <= v <= f.0,
    ensures
        ruled_out(t, f, 0, v),
{
    if v < f.1 {
        assert(before((f.0 as int, v), (f.0 as int, f.1 as int)));
        assert(t[f.0 as int][v] is Some);
    } else if f.1 < v < f.0 {
        assert(before((v, f.1 as int), (f.0 as int, f.1 as int)));
        assert(t[v][f.1 as int] is Some);
    }
}

/// The other two cells of the triple that this search enters at an empty cell `p` with a
/// candidate `val` above `p.0` that lies neither in row `p.0` nor in column `p.1` are empty,
/// and the table stays sound at `p`.
#[verifier::spinoff_prover]
#[verifier::rlimit(80)]
proof fn lemma_older_set_sound(t: Seq<Seq<Option<usize>>>, p: (usize, usize), val: usize)
    requires
        table_wf(t),
        t.len() < usize::MAX,
        sound(t, p),
        p.1 < p.0 < val < t.len(),
        t[p.0 as int][p.1 as int] is None,
        !in_row(t, p, val as int, p.0 as int),
        !in_col(t, p, val as int, t.len() as int),
    ensures
        sound(with_triple(t, (val, p.0, p.1), false), p),
{
    let n = t.len() as int;
    let v = val as int;
    let p0 = p.0 as int;
    let p1 = p.1 as int;
    if t[v][p1] is Some {
        assert(in_col(t, p, v, n));
    }
    if t[v][p0] is Some {
        let y = t[v][p0]->0 as int;
        assert(y != v && y != p0);
        if y < p0 {
            lemma_cell_names_triple(t, v, p0, y);
            assert(entered(t, v, p0, y));
            assert(t[p0][y] is Some && holds(t[p0][y], v));
            assert(in_row(t, p, v, p0));
        } else {
            let s3 = order3(y, v, p0);
            assert(s3.2 == p0);
        }
    }
    let st = (val, p.0, p.1);
    lemma_enter_keeps(t, st);
    lemma_with_triple(t, st, false);
    let u = with_triple(t, st, false);
    assert forall|i: int, j: int| 0 <= j < i < u.len() && #[trigger] u[i][j] is Some implies {
        let s3 = order3(u[i][j]->0 as int, i, j);
        s3.2 == 0 || before((s3.1, s3.2), (p0, p1)) || (s3.1 == p0 && s3.2 == p1)
    } by {
        if cell_of(v, p0, p1, i, j) {
            lemma_cell_names_triple(u, v, p0, p1);
        } else {
            assert(u[i][j] == t[i][j]);
        }
    }
}

/// Clearing cells only: whatever lies in a row or a column of the cleared table lies there in
/// the table before.
proof fn lemma_older_cleared_lines(t: Seq<Seq<Option<usize>>>, u: Seq<Seq<Option<usize>>>, p: (usize, usize), v: int)
    requires
        u.len() == t.len(),
        forall|i: int| 0 <= i < t.len() ==> #[trigger] u[i].len() == t[i].len(),
        forall|i: int, j: int| 0 <= i < t.len() && 0 <= j < t[i].len() && #[trigger] u[i][j] is Some ==> u[i][j] == t[i][j],
        p.1 < p.0 < t.len(),
        forall|i: int| 0 <= i < t.len() ==> #[trigger] t[i].len() == i,
    ensures
        in_row(u, p, v, p.0 as int) ==> in_row(t, p, v, p.0 as int),
        in_col(u, p, v, t.len() as int) ==> in_col(t, p, v, t.len() as int),
{
    if in_row(u, p, v, p.0 as int) {
        let j = choose|j: int| 0 <= j < p.0 && #[trigger] u[p.0 as int][j] is Some && (holds(u[p.0 as int][j], v) || j == v);
        assert(u[p.0 as int][j] == t[p.0 as int][j]);
    }
    if in_col(u, p, v, t.len() as int) {
        let i = choose|i: int| p.1 + 1 <= i < t.len() && #[trigger] u[i][p.1 as int] is Some && (holds(u[i][p.1 as int], v) || i == v);
        assert(u[i][p.1 as int] == t[i][p.1 as int]);
    }
}

/// Stepping back over a cell at which no triple is entered keeps every owner at or before the
/// pointer.
#[verifier::rlimit(60)]
proof fn lemma_older_back_owned(t: Seq<Seq<Option<usize>>>, q: (usize, usize))
    requires
        table_wf(t),
        t.len() < usize::MAX,
        t.len() >= 2,
        owned_upto(t, q),
        unowned_at(t, q),
        consistent(t),
        1 <= q.1 < q.0,
    ensures
        owned_upto(t, prev_cell(t.len() as int, q)),
{
    let n = t.len() as int;
    let pq = prev_cell(n, q);
    assert forall|i: int, j: int| 0 <= j < i < t.len() && #[trigger] t[i][j] is Some implies {
        let s3 = order3(t[i][j]->0 as int, i, j);
        s3.2 == 0 || before((s3.1, s3.2), (pq.0 as int, pq.1 as int)) || (s3.1 == pq.0 && s3.2 == pq.1)
    } by {
        let s3 = order3(t[i][j]->0 as int, i, j);
        assert(entered(t, s3.0, s3.1, s3.2));
    }
}

/// Walking forward keeps every owner at or before the pointer.
proof fn lemma_older_walk_owned(t: Seq<Seq<Option<usize>>>, p: (usize, usize), k: nat)
    requires
        table_wf(t),
        t.len() < usize::MAX,
        owned_upto(t, p),
        forall|j: nat| j < k ==> #[trigger] cell(t, walk(t.len() as int, p, j)) is Some,
    ensures
        owned_upto(t, walk(t.len() as int, p, k)),
    decreases k,
{
    if k > 0 {
        let n = t.len() as int;
        assert(cell(t, walk(n, p, 0)) is Some);
        assert(p.1 < p.0 < n) by {
            assert(t[p.0 as int].len() == p.0);
        }
        let q = next_cell(n, p);
        assert(owned_upto(t, q)) by {
            assert forall|i: int, j: int| 0 <= j < i < t.len() && #[trigger] t[i][j] is Some implies {
                let s3 = order3(t[i][j]->0 as int, i, j);
                s3.2 == 0 || before((s3.1, s3.2), (q.0 as int, q.1 as int)) || (s3.1 == q.0 && s3.2 == q.1)
            } by {}
        }
        assert forall|j: nat| j < k - 1 implies #[trigger] cell(t, walk(n, q, j)) is Some by {
            assert(walk(n, p, j + 1) == walk(n, q, j));
            assert(cell(t, walk(n, p, j + 1)) is Some);
        }
        lemma_older_walk_owned(t, q, (k - 1) as nat);
        assert(walk(n, p, k) == walk(n, q, (k - 1) as nat));
    }
}

/// Pointer `p` lies below the diagonal, and inside the table or in its last column or past it:
/// where this search can put it.
pub open spec fn in_reach(n: int, p: (usize, usize)) -> bool {
    p.1 < p.0 && (p.0 <= n - 1 || p.1 >= n - 2)
}

/// Walking forward over filled cells keeps the pointer in reach.
proof fn lemma_walk_reach(t: Seq<Seq<Option<usize>>>, p: (usize, usize), k: nat)
    requires
        table_wf(t),
        t.len() < usize::MAX,
        in_reach(t.len() as int, p),
        forall|j: nat| j < k ==> #[trigger] cell(t, walk(t.len() as int, p, j)) is Some,
    ensures
        in_reach(t.len() as int, walk(t.len() as int, p, k)),
    decreases k,
{
    if k > 0 {
        let n = t.len() as int;
        assert(cell(t, walk(n, p, 0)) is Some);
        assert(p.0 < n);
        let q = next_cell(n, p);
        assert(in_reach(n, q));
        assert forall|j: nat| j < k - 1 implies #[trigger] cell(t, walk(n, q, j)) is Some by {
            assert(walk(n, p, j + 1) == walk(n, q, j));
            assert(cell(t, walk(n, p, j + 1)) is Some);
        }
        lemma_walk_reach(t, q, (k - 1) as nat);
        assert(walk(n, p, k) == walk(n, q, (k - 1) as nat));
    }
}

/// With every cell before a pointer in reach but outside the table filled, the table is full.
proof fn lemma_outside_full(t: Seq<Seq<Option<usize>>>, p: (usize, usize))
    requires
        filled_before(t, p),
        in_reach(t.len() as int, p),
        !(p.1 < p.0 < t.len()),
    ensures
        full(t),
{
    assert forall|i: int, j: int| 0 <= j < i < t.len() implies #[trigger] t[i][j] is Some by {
        assert(before((i, j), (p.0 as int, p.1 as int)));
    }
}

impl TriplesArray {
    /// One step of the search; `step_result` states what it leaves and answers. It moves the
    /// pointer to the first empty cell at or after it;
    /// from there it enters the triple of that cell and its least candidate (see
    /// `min_valid_value_at`) and answers `None`. When the cells run out past the table's end
    /// it answers `Some(true)`. When the cell has no candidate, it steps back, clearing each
    /// triple that it meets at the cell of its two smallest elements, until one of them can
    /// take a larger third element, which it enters, answering `None`; it answers
    /// `Some(false)` when it reaches the first column. A step that answers `None` raises the
    /// table's rank, so that a search ends; and it passes over no completion of a fresh table
    /// (see `none_missed`), so that one answering `Some(false)` leaves none. From a fresh table
    /// of odd size, `Some(true)` comes with a Steiner triple system; from one of even size it
    /// never comes, as the first cell of the last row stays empty (see `filled_but_corner`).
    #[verifier::spinoff_prover]
    #[verifier::rlimit(80)]
    pub fn step(&mut self) -> (r: Option<bool>)
        requires
            old(self).wf(),
        ensures
            final(self).wf(),
            (final(self).table(), final(self).pointer, r) == step_result(old(self).table(), old(self).pointer),
            final(self).table().len() == old(self).table().len(),
            r == Some(true) ==> final(self).table() == old(self).table() && !(final(self).pointer.1
                < final(self).pointer.0 < final(self).table().len()),
            r == Some(false) ==> final(self).pointer.1 == 0,
            r == Some(false) && old(self).table().len() >= 2 && old(self).table().len() % 2 == 0 ==> forall|
                u: Seq<Seq<Option<usize>>>,
            | !completion(u, old(self).table().len() as int),
            in_reach(old(self).table().len() as int, old(self).pointer) ==> (r is None ==> in_reach(
                final(self).table().len() as int,
                final(self).pointer,
            )),
            filled_before(old(self).table(), old(self).pointer) ==> {
                &&& r is None ==> filled_before(final(self).table(), final(self).pointer) && rank(old(self).table())
                    < rank(final(self).table())
                &&& sound(old(self).table(), old(self).pointer) ==> sound(final(self).table(), final(self).pointer)
                &&& in_reach(old(self).table().len() as int, old(self).pointer) && r == Some(true) ==> full(
                    final(self).table(),
                )
                &&& sound(old(self).table(), old(self).pointer) && in_reach(old(self).table().len() as int, old(self).pointer)
                    && 3 <= old(self).table().len() <= u32::MAX && r == Some(true) ==> steiner_system(
                    old(self).table().len() as int,
                    3,
                    0,
                    old(self).table().len() - 1,
                    table_triples(final(self).table()),
                )
            },
            filled_but_corner(old(self).table(), old(self).pointer) && sound(old(self).table(), old(self).pointer)
                && in_reach(old(self).table().len() as int, old(self).pointer) && old(self).pointer.1 >= 1 ==> {
                &&& r != Some(true)
                &&& r is None ==> filled_but_corner(final(self).table(), final(self).pointer) && sound(
                    final(self).table(),
                    final(self).pointer,
                ) && final(self).pointer.1 >= 1 && rank(old(self).table()) < rank(final(self).table())
            },
            filled_before(old(self).table(), old(self).pointer) && sound(old(self).table(), old(self).pointer)
                && in_reach(old(self).table().len() as int, old(self).pointer) && old(self).pointer.1 >= 1
                && none_missed(old(self).table(), old(self).pointer) ==> {
                &&& r is None ==> none_missed(final(self).table(), final(self).pointer) && final(self).pointer.1 >= 1
                &&& r == Some(false) ==> forall|u: Seq<Seq<Option<usize>>>| !completion(u, old(self).table().len() as int)
            },
    {
        let ghost t0 = self.table();
        let ghost n = t0.len() as int;
        let ghost start = self.pointer;
        let ghost good = sound(t0, start);
        let ghost reach = in_reach(n, start);
        let ghost fine = filled_before(t0, start);
        let ghost even = filled_but_corner(t0, start) && good && reach && start.1 >= 1;
        self.move_pointer();
        let ghost k0: nat = choose|k: nat| {
            &&& self.pointer == walk(n, start, k)
            &&& forall|j: nat| j < k ==> #[trigger] cell(t0, walk(n, start, j)) is Some
        };
        proof {
            let k = choose|k: nat| {
                &&& self.pointer == walk(n, start, k)
                &&& forall|j: nat| j < k ==> #[trigger] cell(t0, walk(n, start, j)) is Some
            };
            if fine {
                lemma_walk_filled(t0, start, k);
            }
            if good {
                lemma_older_walk_owned(t0, start, k);
            }
            if reach {
                lemma_walk_reach(t0, start, k);
            }
            if even {
                lemma_walk_filled_corner(t0, start, k0);
                lemma_older_walk_forward(t0, start, k0);
                lemma_older_walk_owned(t0, start, k0);
                lemma_walk_reach(t0, start, k0);
                lemma_corner_column(t0, self.pointer);
            }
        }
        if !self.pointer_inbounds(None) {
            proof {
                if reach && fine {
                    lemma_outside_full(t0, self.pointer);
                    if good && 3 <= n <= u32::MAX {
                        law_full_table_is_steiner(t0);
                    }
                }
                if even {
                    assert(before((n - 1, 1), (self.pointer.0 as int, self.pointer.1 as int)));
                }
            }
            return Some(true);
        }
        let f = self.pointer;
        let ghost track = fine && good && reach && start.1 >= 1 && none_missed(t0, start);
        proof {
            if track {
                lemma_older_walk_forward(t0, start, k0);
                lemma_older_walk_owned(t0, start, k0);
                lemma_walk_filled(t0, start, k0);
                lemma_filled_walk(t0, f);
                lemma_fold(t0);
                lemma_walk_misses_none(t0, start, f);
            }
        }
        if let Some(val) = self.min_valid_value_at(None) {
            proof {
                lemma_least_valid(t0, f, Some(val));
                assert(t0[f.0 as int].len() == f.0);
                let d = descending((f.0, f.1, val));
                assert(d.2 < d.1 < d.0 < n);
                assert(t0[d.0 as int].len() == d.0 && t0[d.1 as int].len() == d.1);
                lemma_with_triple(t0, d, false);
                if fine {
                    if val <= f.0 {
                        lemma_front_ruled_out(t0, f, val as int);
                    }
                    assert(d == (val, f.0, f.1));
                    if good {
                        lemma_older_set_sound(t0, f, val);
                    }
                }
                if even {
                    assert(sound(t0, f));
                    if val <= f.0 {
                        lemma_front_ruled_out_corner(t0, f, val as int);
                    }
                    assert(d == (val, f.0, f.1));
                    lemma_older_set_sound(t0, f, val);
                }
            }
            self.set_triple((self.pointer.0, self.pointer.1, val));
            proof {
                if fine || even {
                    lemma_rank_step(t0, self.table(), (f.0 as int, f.1 as int));
                }
                if fine {
                    assert forall|r: int, c: int| 0 <= c < r < n && before((r, c), (f.0 as int, f.1 as int)) implies #[trigger] self.table()[r][c] is Some by {
                        assert(t0[r][c] is Some);
                    }
                }
                if even {
                    assert(self.table()[n - 1][0] == t0[n - 1][0]);
                    assert forall|r: int, c: int|
                        0 <= c < r < n && before((r, c), (f.0 as int, f.1 as int)) && !(r == n - 1 && c == 0) implies #[trigger] self.table()[r][c]
                        is Some by {
                        assert(t0[r][c] is Some);
                    }
                }
                if track {
                    assert(none_missed(self.table(), self.pointer)) by {
                        lemma_older_front_takes(t0, f, val);
                    }
                }
            }
            return None;
        }
        proof {
            lemma_least_valid(t0, f, None);
            if track {
                assert(all_beyond(t0, f)) by {
                    lemma_older_front_fails(t0, f);
                }
            }
        }
        while self.pointer.1 > 0
            invariant
                self.wf(),
                back(n, self.table(), self.pointer) == back(n, t0, f),
                step_result(t0, start) == back(n, t0, f),
                self.table().len() == n,
                n == t0.len(),
                t0 == old(self).table(),
                n >= 2,
                table_wf(t0),
                f.1 < f.0 < n,
                fine == filled_before(t0, start),
                fine ==> filled_before(t0, f),
                even == (filled_but_corner(t0, start) && good && reach && start.1 >= 1),
                even ==> filled_but_corner(t0, f),
                on_track(n, self.pointer),
                before((self.pointer.0 as int, self.pointer.1 as int), (f.0 as int, f.1 as int)) || self.pointer == f,
                forall|r: int, c: int|
                    0 <= c < r < n && (before((r, c), (self.pointer.0 as int, self.pointer.1 as int)) || (r == self.pointer.0
                        && c == self.pointer.1)) ==> #[trigger] self.table()[r][c] == t0[r][c],
                good == sound(t0, start),
                start == old(self).pointer,
                good ==> sound(self.table(), self.pointer),
                self.pointer.0 < n,
                t0.len() < usize::MAX,
                reach == in_reach(n, start),
                track == (fine && good && reach && start.1 >= 1 && none_missed(t0, start)),
                track ==> n >= 3 && all_beyond(self.table(), self.pointer),
                track && self.pointer.1 == 0 ==> self.pointer.0 == n - 2,
            decreases self.pointer.1, self.pointer.0,
        {
            let q = self.pointer;
            let ghost t1 = self.table();
            if self.is_first_in_triple(None) {
                let ghost e = cell(t1, q)->0;
                proof {
                    assert(t1[q.0 as int].len() == q.0);
                    assert(t1[q.0 as int][q.1 as int] matches Some(x) ==> x < n);
                }
                if let Some(val) = self.min_valid_value_at(None) {
                    proof {
                        lemma_least_valid(t1, q, Some(val));
                        assert(descending((e, q.1, q.0)) == (e, q.0, q.1));
                        lemma_with_triple(t1, (e, q.0, q.1), true);
                    }
                    self.unset(None);
                    let ghost t2 = self.table();
                    proof {
                        assert(descending((val, q.0, q.1)) == (val, q.0, q.1));
                        lemma_with_triple(t2, (val, q.0, q.1), false);
                        if good {
                            lemma_clear_sound(t1, q, e);
                            lemma_older_cleared_lines(t1, t2, q, val as int);
                            lemma_older_set_sound(t2, q, val);
                        }
                    }
                    self.set_triple((val, self.pointer.0, self.pointer.1));
                    proof {
                        assert forall|r: int, c: int| 0 <= c < r < n && before((r, c), (q.0 as int, q.1 as int))
                            implies #[trigger] t0[r][c] == self.table()[r][c] by {
                            assert(t1[r][c] == t0[r][c]);
                        }
                        assert(t1[q.0 as int][q.1 as int] == t0[q.0 as int][q.1 as int]);
                        lemma_rank_step(t0, self.table(), (q.0 as int, q.1 as int));
                        if fine {
                            assert forall|r: int, c: int| 0 <= c < r < n && before((r, c), (q.0 as int, q.1 as int)) implies #[trigger] self.table()[r][c] is Some by {
                                assert(t1[r][c] == t0[r][c]);
                                assert(before((r, c), (f.0 as int, f.1 as int)));
                            }
                        }
                        if even {
                            assert(before((n - 1, 0), (q.0 as int, q.1 as int)));
                            assert(self.table()[n - 1][0] == t0[n - 1][0]);
                            assert forall|r: int, c: int|
                                0 <= c < r < n && before((r, c), (q.0 as int, q.1 as int)) && !(r == n - 1 && c == 0) implies #[trigger] self.table()[r][c]
                                is Some by {
                                assert(t1[r][c] == t0[r][c]);
                                assert(before((r, c), (f.0 as int, f.1 as int)));
                            }
                        }
                        if track {
                            assert(none_missed(self.table(), self.pointer)) by {
                                lemma_fold(t1);
                                lemma_older_back_takes(t1, q, e, val);
                            }
                        }
                    }
                    return None;
                }
                proof {
                    lemma_least_valid(t1, q, None);
                    assert(descending((e, q.1, q.0)) == (e, q.0, q.1));
                    lemma_with_triple(t1, (e, q.0, q.1), true);
                }
                self.unset(None);
                proof {
                    assert(back(n, t1, q) == back(n, self.table(), prev_cell(n, q)));
                    if good {
                        lemma_clear_sound(t1, q, e);
                        lemma_older_back_owned(self.table(), q);
                    }
                    if track {
                        assert(all_beyond(self.table(), prev_cell(n, q))) by {
                            lemma_fold(t1);
                            lemma_fold(self.table());
                            lemma_older_filled_kept(t0, t1, f, q);
                            lemma_older_back_fails(t1, q, e);
                        }
                    }
                }
                self.decrement_pointer();
            } else {
                proof {
                    assert(back(n, t1, q) == back(n, t1, prev_cell(n, q)));
                    if good {
                        lemma_unowned_here(t1, q);
                        lemma_older_back_owned(t1, q);
                    }
                    if track {
                        assert(all_beyond(t1, prev_cell(n, q))) by {
                            lemma_fold(t1);
                            lemma_older_filled_kept(t0, t1, f, q);
                            lemma_older_back_skips(t1, q);
                        }
                    }
                }
                self.decrement_pointer();
            }
            proof {
                let p2 = self.pointer;
                assert(before((p2.0 as int, p2.1 as int), (q.0 as int, q.1 as int)));
                assert forall|r: int, c: int|
                    0 <= c < r < n && (before((r, c), (p2.0 as int, p2.1 as int)) || (r == p2.0 && c == p2.1)) implies
                    #[trigger] self.table()[r][c] == t0[r][c] by {
                    assert(before((r, c), (q.0 as int, q.1 as int)));
                    assert(t1[r][c] == t0[r][c]);
                }
            }
        }
        proof {
            if track {
                assert(forall|u: Seq<Seq<Option<usize>>>| !completion(u, n)) by {
                    lemma_fold(self.table());
                    lemma_search_exhausted(self.table(), self.pointer);
                }
            }
            if n % 2 == 0 {
                lemma_no_completion_even(n);
            }
        }
        Some(false)
    }
}

/// One more step of this search's order is the step after the walk so far.
pub(crate) proof fn lemma_walk_next(n: int, p: (usize, usize), k: nat)
    ensures
        walk(n, p, k + 1) == next_cell(n, walk(n, p, k)),
    decreases k,
{
    assert(walk(n, p, k + 1) == walk(n, next_cell(n, p), k));
    if k > 0 {
        lemma_walk_next(n, next_cell(n, p), (k - 1) as nat);
        assert(walk(n, p, k) == walk(n, next_cell(n, p), (k - 1) as nat));
    } else {
        assert(walk(n, next_cell(n, p), 0) == next_cell(n, p));
    }
}

/// From `c` the older tests reach `c * (c - 1) + 1` and `c * c`.
pub open spec fn grow_step(c: int, x: int) -> bool {
    x == c * (c - 1) + 1 || x == c * c
}

/// A sequence of values that starts at `seed` and goes by steps.
pub open spec fn is_growth(seed: int, chain: Seq<int>) -> bool {
    &&& chain.len() >= 1
    &&& chain[0] == seed
    &&& forall|i: int| 0 <= i < chain.len() - 1 ==> #[trigger] grow_step(chain[i], chain[i + 1])
}

/// `n` is reached from `seed` by steps.
pub open spec fn grown(seed: int, n: int) -> bool {
    exists|chain: Seq<int>| is_growth(seed, chain) && chain.last() == n
}

/// The answer of the older test for triples on `n` elements: `3` works and smaller numbers
/// do not; the number must be odd and `1` or `3` modulo `6`; past that, the numbers reached
/// from `3` by steps work, and nothing is known of the others.
pub open spec fn triple_verdict(n: int) -> Result<bool, ()> {
    if n <= 3 {
        Ok(n == 3)
    } else if ((n % 6) * ((n - 1) % 6)) % 6 > 0 || n % 2 == 0 {
        Ok(false)
    } else if grown(3, n) && n < usize::MAX {
        Ok(true)
    } else {
        Err(())
    }
}

/// The answer of the older test for batches of `phi` on `n` elements.
pub open spec fn older_verdict(n: int, phi: int) -> Result<bool, ()> {
    if n <= 1 {
        Ok(phi == 0)
    } else if phi <= 1 {
        Ok(false)
    } else if phi == 2 {
        Ok(true)
    } else if phi == 3 {
        triple_verdict(n)
    } else if phi == n {
        Ok(true)
    } else if (n - 1) % (phi - 1) > 0 {
        Ok(false)
    } else if n <= phi * (phi - 1) {
        Ok(false)
    } else if ((n % (phi * (phi - 1))) * ((n - 1) % (phi * (phi - 1)))) % (phi * (phi - 1)) > 0 {
        Ok(false)
    } else if grown(phi, n) && n < usize::MAX {
        Ok(true)
    } else {
        Err(())
    }
}

/// `phi * (phi - 1)` divides `n * (n - 1)` just when the product of the remainders of `n` and
/// `n - 1` is a multiple of it.
proof fn lemma_pairs_divide(n: int, phi: int)
    requires
        phi >= 2,
    ensures
        phi * (phi - 1) > 0,
        ((n * (n - 1)) % (phi * (phi - 1)) == 0) == (((n % (phi * (phi - 1))) * ((n - 1) % (phi * (phi - 1))))
            % (phi * (phi - 1)) == 0),
{
    let m = phi * (phi - 1);
    assert(m > 0) by (nonlinear_arith)
        requires
            m == phi * (phi - 1),
            phi >= 2,
    ;
    vstd::arithmetic::div_mod::lemma_mul_mod_noop_general(n, n - 1, m);
}

/// A refusal of the older tests is never wrong: where `older_verdict` (what
/// `Batches::test_quick` answers, and `test_medium` when it decides) or `triple_verdict` (what
/// `TriplesArray::test_quick` answers) is `Ok(false)`, no collection of batches on `n`
/// elements is a Steiner system with batches of `phi` (of three).
#[verifier::spinoff_prover]
#[verifier::rlimit(40)]
pub proof fn law_older_refusal_is_sound(n: int, phi: int, min: int, max: int, sets: Set<Set<u32>>)
    ensures
        older_verdict(n, phi) == Ok::<bool, ()>(false) ==> !steiner_system(n, phi, min, max, sets),
        triple_verdict(n) == Ok::<bool, ()>(false) ==> !steiner_system(n, 3, min, max, sets),
{
    if phi >= 2 {
        lemma_pairs_divide(n, phi);
    }
    lemma_pairs_divide(n, 3);
    assert(3int * (3 - 1) == 6);
}

/// A success of the older tests never goes against what a Steiner system needs: where
/// `older_verdict` is `Ok(true)` for more than one element, a batch holds no more elements
/// than there are and the parameters meet every condition that a Steiner system on `n`
/// elements with batches of `phi` meets (see `header_ok`); likewise for `triple_verdict` with
/// batches of three.
#[verifier::spinoff_prover]
#[verifier::rlimit(40)]
pub proof fn law_older_success_is_admissible(n: int, phi: int)
    requires
        n > 1,
    ensures
        older_verdict(n, phi) == Ok::<bool, ()>(true) ==> phi <= n && header_ok(n, phi, 0, n - 1),
        triple_verdict(n) == Ok::<bool, ()>(true) ==> 3 <= n && header_ok(n, 3, 0, n - 1),
{
    lemma_pairs_divide(n, 3);
    assert(3int * (3 - 1) == 6);
    if triple_verdict(n) == Ok::<bool, ()>(true) && n > 3 {
        if n == 5 {
            vstd::arithmetic::div_mod::lemma_fundamental_div_mod_converse(5, 6, 0, 5);
            vstd::arithmetic::div_mod::lemma_fundamental_div_mod_converse(4, 6, 0, 4);
            vstd::arithmetic::div_mod::lemma_fundamental_div_mod_converse(20, 6, 3, 2);
            let (x5, x4) = (5int % 6, 4int % 6);
            assert(x5 * x4 == 20) by (nonlinear_arith)
                requires
                    x5 == 5,
                    x4 == 4,
            ;
        }
    }
    if older_verdict(n, phi) == Ok::<bool, ()>(true) {
        if phi == n {
            let m = n * (n - 1);
            assert(m > 0) by (nonlinear_arith)
                requires
                    m == n * (n - 1),
                    n > 1,
            ;
            vstd::arithmetic::div_mod::lemma_mod_multiples_basic(1, m);
            vstd::arithmetic::div_mod::lemma_mod_multiples_basic(1, n - 1);
        } else if phi == 2 {
            let h = n / 2;
            vstd::arithmetic::div_mod::lemma_fundamental_div_mod(n, 2);
            if n % 2 == 0 {
                assert(n * (n - 1) == (h * (n - 1)) * 2) by (nonlinear_arith)
                    requires
                        n == 2 * h,
                ;
                vstd::arithmetic::div_mod::lemma_mod_multiples_basic(h * (n - 1), 2);
            } else {
                assert(n * (n - 1) == (n * h) * 2) by (nonlinear_arith)
                    requires
                        n == 2 * h + 1,
                ;
                vstd::arithmetic::div_mod::lemma_mod_multiples_basic(n * h, 2);
            }
        } else if phi > 3 {
            lemma_pairs_divide(n, phi);
            assert(phi * (phi - 1) >= phi) by (nonlinear_arith)
                requires
                    phi > 3,
            ;
        }
    }
}

/// The older tests accept both planes of order `phi - 1` and `phi` that `phi` leads to: for
/// batches of `phi >= 3`, `phi * (phi - 1) + 1` elements (the projective plane) and `phi * phi`
/// elements (the affine plane) are answered `Ok(true)`, never refused.
#[verifier::spinoff_prover]
#[verifier::rlimit(40)]
pub proof fn law_older_planes_accepted(phi: int)
    requires
        phi >= 3,
        phi * phi < usize::MAX,
    ensures
        older_verdict(phi * (phi - 1) + 1, phi) == Ok::<bool, ()>(true),
        older_verdict(phi * phi, phi) == Ok::<bool, ()>(true),
{
    let m = phi * (phi - 1);
    let p = m + 1;
    let a = phi * phi;
    assert(m >= 2 * phi && a == m + phi && a - 1 == (phi - 1) * (phi + 1) && m == (phi - 1) * phi) by (nonlinear_arith)
        requires
            phi >= 3,
            m == phi * (phi - 1),
            a == phi * phi,
    ;
    let c1 = seq![phi, p];
    assert(grow_step(phi, p));
    assert(is_growth(phi, c1) && c1.last() == p);
    let c2 = seq![phi, a];
    assert(grow_step(phi, a));
    assert(is_growth(phi, c2) && c2.last() == a);
    if phi == 3 {
        assert(p == 7 && a == 9);
        vstd::arithmetic::div_mod::lemma_fundamental_div_mod_converse(7, 6, 1, 1);
        vstd::arithmetic::div_mod::lemma_fundamental_div_mod_converse(6, 6, 1, 0);
        vstd::arithmetic::div_mod::lemma_fundamental_div_mod_converse(9, 6, 1, 3);
        vstd::arithmetic::div_mod::lemma_fundamental_div_mod_converse(8, 6, 1, 2);
        vstd::arithmetic::div_mod::lemma_fundamental_div_mod_converse(0, 6, 0, 0);
        vstd::arithmetic::div_mod::lemma_fundamental_div_mod_converse(6, 6, 1, 0);
        let (x7, x6, x9, x8) = (7int % 6, 6int % 6, 9int % 6, 8int % 6);
        assert(x7 * x6 == 0 && x9 * x8 == 6) by (nonlinear_arith)
            requires
                x7 == 1,
                x6 == 0,
                x9 == 3,
                x8 == 2,
        ;
        assert(triple_verdict(7) == Ok::<bool, ()>(true));
        assert(triple_verdict(9) == Ok::<bool, ()>(true));
    } else {
        vstd::arithmetic::div_mod::lemma_fundamental_div_mod_converse(p - 1, phi - 1, phi, 0);
        vstd::arithmetic::div_mod::lemma_fundamental_div_mod_converse(p, m, 1, 1);
        vstd::arithmetic::div_mod::lemma_fundamental_div_mod_converse(p - 1, m, 1, 0);
        vstd::arithmetic::div_mod::lemma_fundamental_div_mod_converse(a - 1, phi - 1, phi + 1, 0);
        vstd::arithmetic::div_mod::lemma_fundamental_div_mod_converse(a, m, 1, phi);
        vstd::arithmetic::div_mod::lemma_fundamental_div_mod_converse(a - 1, m, 1, phi - 1);
        vstd::arithmetic::div_mod::lemma_fundamental_div_mod_converse(m, m, 1, 0);
        assert(phi * (phi - 1) == m);
        vstd::arithmetic::div_mod::lemma_fundamental_div_mod_converse(0, m, 0, 0);
        let (xp, yp, xa, ya) = (p % m, (p - 1) % m, a % m, (a - 1) % m);
        assert(xp * yp == 0 && xa * ya == m) by (nonlinear_arith)
            requires
                xp == 1,
                yp == 0,
                xa == phi,
                ya == phi - 1,
                m == phi * (phi - 1),
        ;
        assert(p != phi && a != phi);
    }
}

/// The older test runs to its end on `n` and `phi`: no product it forms overflows.
pub open spec fn older_defined(n: int, phi: int) -> bool {
    (n > 1 && phi > 3 && phi != n && (n - 1) % (phi - 1) == 0) ==> {
        &&& phi * (phi - 1) <= usize::MAX
        &&& n > phi * (phi - 1) ==> (n % (phi * (phi - 1))) * ((n - 1) % (phi * (phi - 1))) <= usize::MAX
    }
}

/// A step from at least `2` leads to a larger value.
proof fn lemma_grow_grows(c: int)
    requires
        c >= 2,
    ensures
        forall|x: int| #[trigger] grow_step(c, x) ==> x > c,
{
    assert(c * (c - 1) + 1 > c && c * c > c) by (nonlinear_arith)
        requires
            c >= 2,
    ;
}

/// A chain extended by a step is a chain.
proof fn lemma_growth_push(seed: int, chain: Seq<int>, x: int)
    requires
        is_growth(seed, chain),
        grow_step(chain.last(), x),
    ensures
        grown(seed, x),
{
    let c = chain.push(x);
    assert forall|i: int| 0 <= i < c.len() - 1 implies #[trigger] grow_step(c[i], c[i + 1]) by {
        if i < chain.len() - 1 {
            assert(c[i] == chain[i] && c[i + 1] == chain[i + 1]);
        }
    }
    assert(is_growth(seed, c) && c.last() == x);
}

/// The values of a chain from at least `2` grow.
proof fn lemma_growth_increasing(seed: int, chain: Seq<int>, i: int, j: int)
    requires
        seed >= 2,
        is_growth(seed, chain),
        0 <= i <= j < chain.len(),
    ensures
        chain[i] <= chain[j],
        chain[j] >= seed,
    decreases j,
{
    if j > 0 {
        let j0 = j - 1;
        if i < j {
            lemma_growth_increasing(seed, chain, i, j0);
        } else {
            lemma_growth_increasing(seed, chain, 0, j0);
        }
        lemma_growth_increasing(seed, chain, 0, j0);
        lemma_grow_grows(chain[j0]);
        assert(grow_step(chain[j0], chain[j0 + 1]));
    }
}

/// A set that holds the seed and is closed under steps up to `n` holds every value of a chain
/// to `n`.
proof fn lemma_growth_closed(seed: int, chain: Seq<int>, processed: Set<int>, n: int, i: int)
    requires
        seed >= 2,
        is_growth(seed, chain),
        chain.last() == n,
        0 <= i < chain.len(),
        processed.contains(seed),
        forall|x: int, y: int|
            #![trigger processed.contains(x), grow_step(x, y)]
            processed.contains(x) && grow_step(x, y) && y <= n ==> processed.contains(y),
    ensures
        processed.contains(chain[i]),
    decreases i,
{
    if i > 0 {
        lemma_growth_closed(seed, chain, processed, n, i - 1);
        let i0 = i - 1;
        assert(grow_step(chain[i0], chain[i0 + 1]));
        lemma_growth_increasing(seed, chain, i, chain.len() - 1);
    }
}

/// The older tests' search from `seed`: whether `n > seed` is reached from it by steps, every
/// value on the way below `usize::MAX` and at most `n`.
fn grows_to(n: usize, seed: usize) -> (r: bool)
    requires
        2 <= seed < n,
    ensures
        r == (grown(seed as int, n as int) && n < usize::MAX),
{
    let mut trivials: Vec<usize> = vec![seed];
    let ghost bound: int = n as int;
    let ghost mut low: int = 0;
    let ghost mut processed: Set<int> = Set::empty();
    proof {
        assert(trivials.items() =~= seq![seed as int]);
        let chain = seq![seed as int];
        assert(is_growth(seed as int, chain));
        assert(chain.last() == seed as int);
        assert(grown(seed as int, seed as int));
    }
    while trivials.len() > 0
        invariant
            2 <= seed < n,
            strictly_sorted(trivials.items()),
            sorted(trivials.items()),
            forall|t: int| #[trigger] trivials.items().contains(t) ==> low < t <= n && t < usize::MAX && grown(seed as int, t),
            forall|x: int| #[trigger] processed.contains(x) ==> x <= low && x != n && x >= seed,
            forall|x: int, y: int|
                #![trigger processed.contains(x), grow_step(x, y)]
                processed.contains(x) && grow_step(x, y) && y <= n && y < usize::MAX ==> processed.contains(y)
                    || trivials.items().contains(y),
            processed.contains(seed as int) || trivials.items().contains(seed as int),
            low >= 0,
            low < seed ==> processed == Set::<int>::empty(),
        decreases n - low,
    {
        let ghost before = trivials.items();
        let cur = trivials.remove(0);
        proof {
            assert(before[0] == cur);
            assert(trivials.items() =~= before.subrange(1, before.len() as int));
            assert(before.contains(cur as int));
            assert forall|t: int| #[trigger] trivials.items().contains(t) implies cur < t <= n && t < usize::MAX
                && grown(seed as int, t) by {
                let j = choose|j: int| 0 <= j < trivials.items().len() && trivials.items()[j] == t;
                assert(before[j + 1] == t);
                assert(before.contains(t));
            }
            assert forall|t: int| before.contains(t) && t != cur implies trivials.items().contains(t) by {
                let j = choose|j: int| 0 <= j < before.len() && before[j] == t;
                assert(trivials.items()[j - 1] == t);
            }
            let c = choose|c: Seq<int>| is_growth(seed as int, c) && c.last() == cur;
            lemma_growth_increasing(seed as int, c, 0, c.len() - 1);
        }
        if n == cur {
            return true;
        }
        proof {
            lemma_grow_grows(cur as int);
        }
        let ghost mid = trivials.items();
        let a = match cur.checked_mul(cur - 1) {
            Some(v) => v,
            None => usize::MAX,
        };
        let new = a.saturating_add(1);
        if new <= n && new < usize::MAX {
            proof {
                assert(grow_step(cur as int, new as int));
                let c = choose|c: Seq<int>| is_growth(seed as int, c) && c.last() == cur;
                lemma_growth_push(seed as int, c, new as int);
            }
            let ghost prev = trivials.items();
            let _ = trivials.b_insert_keep(new);
            proof {
                assert forall|t: int| #[trigger] trivials.items().contains(t) implies cur < t <= n && t < usize::MAX && grown(seed as int, t) by {
                    assert(trivials.items().to_set().contains(t));
                    if t != new {
                        assert(prev.to_set().contains(t));
                    }
                }
                assert forall|t: int| #[trigger] prev.contains(t) implies trivials.items().contains(t) by {
                    assert(prev.to_set().contains(t));
                    assert(trivials.items().to_set().contains(t));
                }
                assert(trivials.items().to_set().contains(new as int));
            }
        }
        let ghost mid2 = trivials.items();
        let b = match cur.checked_mul(cur) {
            Some(v) => v,
            None => usize::MAX,
        };
        if b <= n && b < usize::MAX {
            proof {
                assert(grow_step(cur as int, b as int));
                let c = choose|c: Seq<int>| is_growth(seed as int, c) && c.last() == cur;
                lemma_growth_push(seed as int, c, b as int);
            }
            let ghost prev = trivials.items();
            let _ = trivials.b_insert_keep(b);
            proof {
                assert forall|t: int| #[trigger] trivials.items().contains(t) implies cur < t <= n && t < usize::MAX && grown(seed as int, t) by {
                    assert(trivials.items().to_set().contains(t));
                    if t != b {
                        assert(prev.to_set().contains(t));
                    }
                }
                assert forall|t: int| #[trigger] prev.contains(t) implies trivials.items().contains(t) by {
                    assert(prev.to_set().contains(t));
                    assert(trivials.items().to_set().contains(t));
                }
                assert(trivials.items().to_set().contains(b as int));
            }
        }
        proof {
            processed = processed.insert(cur as int);
            low = cur as int;
            assert forall|x: int, y: int|
                #![trigger processed.contains(x), grow_step(x, y)]
                processed.contains(x) && grow_step(x, y) && y <= n && y < usize::MAX implies processed.contains(y)
                    || trivials.items().contains(y) by {
                if x == cur {
                    if y == cur * (cur - 1) + 1 {
                        assert(mid2.contains(y));
                    }
                } else {
                    if before.contains(y) && y != cur {
                        assert(mid.contains(y));
                    }
                }
            }
        }
    }
    proof {
        if grown(seed as int, n as int) && n < usize::MAX {
            let c = choose|c: Seq<int>| is_growth(seed as int, c) && c.last() == n;
            assert forall|x: int, y: int|
                #![trigger processed.contains(x), grow_step(x, y)]
                processed.contains(x) && grow_step(x, y) && y <= n implies processed.contains(y) by {
                if y < usize::MAX {
                } else {
                    assert(y == n);
                }
            }
            lemma_growth_closed(seed as int, c, processed, n as int, c.len() - 1);
        }
    }
    false
}

impl TriplesArray {
    /// Whether `omicron` elements split into triples that cover every pair once, where the
    /// older rules decide it (see `triple_verdict`), and `Err` where they do not.
    pub fn test_quick(omicron: usize) -> (r: Result<bool, ()>)
        ensures
            r == triple_verdict(omicron as int),
    {
        if omicron <= 3 {
            return Ok(omicron == 3);
        }
        assert((omicron % 6) * ((omicron - 1) % 6) <= 25) by (nonlinear_arith)
            requires
                omicron % 6 < 6,
                (omicron - 1) % 6 < 6,
        ;
        if (omicron % 6) * ((omicron - 1) % 6) % 6 > 0 || omicron % 2 == 0 {
            return Ok(false);
        }
        if grows_to(omicron, 3) {
            Ok(true)
        } else {
            Err(())
        }
    }
}

/// Every cell before `(3, 1)` of a fresh table on an odd number of elements is filled.
proof fn lemma_fresh_filled(t: Seq<Seq<Option<usize>>>, n: int)
    requires
        n >= 3,
        n % 2 == 1,
        t.len() == n,
        forall|i: int, j: int| 0 <= j < i < n ==> #[trigger] t[i][j] == initial_cell(n, i, j),
    ensures
        filled_before(t, (3usize, 1usize)),
{
    assert forall|r: int, c: int| 0 <= c < r < t.len() && before((r, c), (3, 1)) implies #[trigger] t[r][c] is Some by {
        assert(t[r][c] == initial_cell(n, r, c));
    }
}

/// The kinds of batches that the older tests know.
pub enum Batches {
    Triple(TriplesArray),
}

impl Batches {
    /// Whether `omicron` elements split into batches of `phi` that cover every pair once,
    /// where the older rules decide it (see `older_verdict`), and `Err` where they do not.
    pub fn test_quick(omicron: usize, phi: usize) -> (r: Result<bool, ()>)
        requires
            older_defined(omicron as int, phi as int),
        ensures
            r == older_verdict(omicron as int, phi as int),
    {
        if omicron <= 1 {
            if phi == 0 {
                return Ok(true);
            } else {
                return Ok(false);
            }
        }
        if phi <= 1 {
            return Ok(false);
        }
        if phi == 2 {
            return Ok(true);
        }
        if phi == 3 {
            return TriplesArray::test_quick(omicron);
        }
        if phi == omicron {
            return Ok(true);
        }
        if (omicron - 1) % (phi - 1) > 0 {
            return Ok(false);
        }
        let m = phi * (phi - 1);
        if omicron <= m {
            return Ok(false);
        }
        assert(m > 0) by (nonlinear_arith)
            requires
                m == phi * (phi - 1),
                phi >= 4,
        ;
        if (omicron % m) * ((omicron - 1) % m) % m > 0 {
            return Ok(false);
        }
        assert(phi < omicron) by (nonlinear_arith)
            requires
                omicron > phi * (phi - 1),
                phi >= 4,
        ;
        if grows_to(omicron, phi) {
            Ok(true)
        } else {
            Err(())
        }
    }

    /// `test_quick`, except that for triples that it cannot decide the search decides, run to
    /// its end from a fresh table: it succeeds exactly where a Steiner triple system exists.
    pub fn test_medium(omicron: usize, phi: usize) -> (r: Result<bool, ()>)
        requires
            older_defined(omicron as int, phi as int),
            phi == 3 ==> omicron < usize::MAX,
        ensures
            phi != 3 || older_verdict(omicron as int, phi as int) is Ok ==> r == older_verdict(omicron as int, phi as int),
            phi == 3 ==> r is Ok,
            phi == 3 && older_verdict(omicron as int, phi as int) is Err && omicron <= u32::MAX ==> (r == Ok::<bool, ()>(true)
                <==> exists|blocks: Set<Set<u32>>| #[trigger] steiner_system(omicron as int, 3, 0, omicron - 1, blocks)),
    {
        let cur = Self::test_quick(omicron, phi);
        if phi != 3 {
            return cur;
        }
        match cur {
            Ok(_) => {
                return cur;
            },
            Err(_) => {},
        }
        let mut arr = TriplesArray::new(omicron);
        proof {
            lemma_fresh_filled(arr.table(), omicron as int);
            lemma_fresh_sound(arr.table());
            lemma_fresh_misses_none(arr.table());
        }
        let ghost n = omicron as int;
        loop
            invariant
                arr.wf(),
                arr.table().len() == n,
                n == omicron,
                filled_before(arr.table(), arr.pointer),
                phi == 3,
                older_verdict(omicron as int, phi as int) is Err,
                sound(arr.table(), arr.pointer),
                in_reach(n, arr.pointer),
                arr.pointer.1 >= 1,
                none_missed(arr.table(), arr.pointer),
            decreases power(n + 1, (n * n) as nat) - rank(arr.table()),
        {
            proof {
                lemma_rank_bound(arr.table(), (n * n) as nat);
            }
            match arr.step() {
                None => {
                    proof {
                        lemma_rank_bound(arr.table(), (n * n) as nat);
                    }
                },
                Some(ans) => {
                    proof {
                        if ans && omicron <= u32::MAX {
                            assert(omicron >= 3);
                            law_full_table_is_steiner(arr.table());
                        }
                        if !ans && omicron <= u32::MAX {
                            lemma_no_system(omicron as int);
                        }
                    }
                    return Ok(ans);
                },
            }
        }
    }
}


impl TriplesArray {
    /// The table as text: a line per row with the row's number and its cells, aligned in
    /// columns, and a last line that marks the columns; or, where no cell is filled, the rows
    /// of blanks in brackets.
    pub fn to_table(&self) -> (r: String)
        requires
            renderable(self.table()),
        ensures
            r@ == table_text(self.table()),
    {
        proof {
            assert(self.table() =~= rows_of(self.arr@));
        }
        render(&self.arr)
    }
}


impl TriplesArray {
    /// Debug text of a table made terse: `Some(` and `)` dropped, `None` written `_`, and
    /// each `],` that ends a row made a line break.
    pub fn reformat(string: String) -> (r: String)
        ensures
            r@ == replaced(
                replaced(replaced(replaced(string@, "Some("@, ""@), ")"@, ""@), "None"@, "_"@),
                "],"@,
                "\n"@,
            ),
    {
        proof {
            reveal_strlit("Some(");
            reveal_strlit(")");
            reveal_strlit("None");
            reveal_strlit("],");
        }
        let a = replace_all(string.as_str(), "Some(", "");
        let b = replace_all(a.as_str(), ")", "");
        let c = replace_all(b.as_str(), "None", "_");
        replace_all(c.as_str(), "],", "\n")
    }
}

} // verus!
