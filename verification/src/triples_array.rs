use vstd::prelude::*;
use vstd::string::*;
use crate::text::{chars_of, decimal, push_decimal};
use crate::parsing::{
    at_byte, byte_count, byte_len, char_at_byte, find_char, first_index, parse_range, parse_usize,
    pieces_of, split, split_ranges, trim, trim_range,
};
use crate::tables::{render, renderable, rows_of, table_text};
use crate::counting::{full, law_finished_search_is_steiner};
use crate::batches::{steiner_system, table_triples};
use crate::progress::{
    filled_upto, lemma_back_placed, lemma_outside_all_filled, lemma_start_row_mono, lemma_walk_filled, placed,
    walk_cell, walk_filled,
};
use crate::consistency::{
    lemma_back_owned, lemma_cleared_lines, lemma_clear_sound, lemma_fresh_sound, lemma_set_sound,
    lemma_unowned_here, lemma_walk_owned, consistent, sound,
};
use vstd::arithmetic::div_mod::{lemma_fundamental_div_mod, lemma_fundamental_div_mod_converse};
use crate::binary_collections::{strictly_sorted, BinaryCollection, BinaryResizableCollection};
use crate::statics::{quick_defined, quick_verdict, BatchNumber, TestError};
use crate::systems::lemma_no_system;
use crate::exhaustive::{
    all_beyond, completion, lemma_back_fails, lemma_back_skips, lemma_back_takes, lemma_filled_kept, lemma_fold,
    lemma_front_fails, lemma_front_takes, lemma_fresh_misses_none, lemma_no_completion_even, lemma_search_exhausted,
    lemma_walk_forward, lemma_walk_misses_none, none_missed,
};

verus! {

// A search for a Steiner triple system on the elements `0 ..< omicron`. The table has a row
// for each element; cell `(i, j)`, with `j < i`, holds the third element of the triple that
// covers the pair `{i, j}`, once one does. The pointer is the cell that the search works on.

/// A table of triples and the cell that the search works on.
#[derive(Debug)]
pub struct TriplesArray {
    pub arr: Vec<Vec<Option<usize>>>,
    pub pointer: (usize, usize),
    pub mem: Vec<usize>,
}

/// Cell `p` of table `t`, or `None` where the table has no such cell.
pub open spec fn cell(t: Seq<Seq<Option<usize>>>, p: (usize, usize)) -> Option<usize> {
    if p.0 < t.len() && p.1 < t[p.0 as int].len() {
        t[p.0 as int][p.1 as int]
    } else {
        None
    }
}

/// Table `t` has a cell `(i, j)`.
pub open spec fn has_cell(t: Seq<Seq<Option<usize>>>, i: int, j: int) -> bool {
    0 <= i < t.len() && 0 <= j < t[i].len()
}

/// Table `t` with cell `(i, j)` set to `v`.
pub open spec fn put(t: Seq<Seq<Option<usize>>>, i: int, j: int, v: Option<usize>) -> Seq<Seq<Option<usize>>> {
    t.update(i, t[i].update(j, v))
}

/// The largest of three numbers.
pub open spec fn max3(a: int, b: int, c: int) -> int {
    if a >= b && a >= c {
        a
    } else if b >= c {
        b
    } else {
        c
    }
}

/// The smallest of three numbers.
pub open spec fn min3(a: int, b: int, c: int) -> int {
    if a <= b && a <= c {
        a
    } else if b <= c {
        b
    } else {
        c
    }
}

/// The three numbers of a triple in descending order.
pub open spec fn descending(t: (usize, usize, usize)) -> (usize, usize, usize) {
    let hi = max3(t.0 as int, t.1 as int, t.2 as int);
    let lo = min3(t.0 as int, t.1 as int, t.2 as int);
    (hi as usize, (t.0 + t.1 + t.2 - hi - lo) as usize, lo as usize)
}

/// Table `t` with the three cells of triple `s` (in descending order) set to the third
/// element of each, or cleared when `clear`.
pub open spec fn with_triple(t: Seq<Seq<Option<usize>>>, s: (usize, usize, usize), clear: bool) -> Seq<Seq<Option<usize>>> {
    let v0 = if clear { None } else { Some(s.2) };
    let v1 = if clear { None } else { Some(s.1) };
    let v2 = if clear { None } else { Some(s.0) };
    put(put(put(t, s.0 as int, s.1 as int, v0), s.0 as int, s.2 as int, v1), s.1 as int, s.2 as int, v2)
}

/// The cell of a fresh search on `n` elements at row `r` and column `c`: the triples
/// `{2 * i, 2 * i - 1, 0}` with `0 < 2 * i < n` are in place, and nothing else.
pub open spec fn initial_cell(n: int, r: int, c: int) -> Option<usize> {
    if c == 0 && 1 <= r < n {
        if r % 2 == 0 {
            Some((r - 1) as usize)
        } else if r + 1 < n {
            Some((r + 1) as usize)
        } else {
            None
        }
    } else if r % 2 == 0 && r >= 2 && c == r - 1 && r < n {
        Some(0)
    } else {
        None
    }
}

/// The cell after `p` in the order in which the search fills a table of `n` rows: down its
/// column to row `n - 2`, then on to the next column, below the cell that a fresh table fills.
pub open spec fn next_cell(n: int, p: (usize, usize)) -> (usize, usize) {
    if p.0 == n - 2 {
        ((p.1 + 2 + (p.1 + 1) % 2) as usize, (p.1 + 1) as usize)
    } else {
        ((p.0 + 1) as usize, p.1)
    }
}

/// The cell `k` steps after `p` in the search's order.
pub open spec fn walk(n: int, p: (usize, usize), k: nat) -> (usize, usize)
    decreases k,
{
    if k == 0 {
        p
    } else {
        walk(n, next_cell(n, p), (k - 1) as nat)
    }
}

/// The cell before `p` in the search's order.
pub open spec fn prev_cell(n: int, p: (usize, usize)) -> (usize, usize) {
    if p.0 == p.1 + 1 + p.1 % 2 {
        ((n - 2) as usize, (p.1 - 1) as usize)
    } else {
        ((p.0 - 1) as usize, p.1)
    }
}

/// The first row that a search in column `c` reads: the odd one of `c + 1` and `c + 2`.
pub open spec fn row_start(c: int) -> int {
    if (c + 1) % 2 == 1 {
        c + 1
    } else {
        c + 2
    }
}

/// The least candidate for the cell at `p`: above the cell's entry, and above both of its
/// elements.
pub open spec fn least_candidate(t: Seq<Seq<Option<usize>>>, p: (usize, usize)) -> int {
    let e = match cell(t, p) {
        Some(e) => e + 1,
        None => 1,
    };
    let a = if p.0 + 1 > e { p.0 + 1 } else { e };
    if p.1 + 1 > a {
        p.1 + 1
    } else {
        a
    }
}

/// Entry `o` is the element `v`.
pub open spec fn holds(o: Option<usize>, v: int) -> bool {
    o matches Some(e) && e == v
}

/// Candidate `v` lies in row `p.0` of `t`, among its first `upto` cells.
pub open spec fn in_row(t: Seq<Seq<Option<usize>>>, p: (usize, usize), v: int, upto: int) -> bool {
    exists|j: int| 0 <= j < upto && holds(#[trigger] t[p.0 as int][j], v)
}

/// Candidate `v` lies in column `p.1` of `t`, or is the row of an entry there, among the rows
/// from `row_start(p.1)` up to `upto`.
pub open spec fn in_col(t: Seq<Seq<Option<usize>>>, p: (usize, usize), v: int, upto: int) -> bool {
    exists|i: int|
        row_start(p.1 as int) <= i < upto && #[trigger] t[i][p.1 as int] is Some && (holds(t[i][p.1 as int], v)
            || i == v)
}

/// Candidate `v` for the cell at `p` is ruled out: it is at least `lo`, and lies in row `p.0`,
/// or in column `p.1` (with the row it lies in) from row `row_start(p.1)` on.
pub open spec fn ruled_out(t: Seq<Seq<Option<usize>>>, p: (usize, usize), lo: int, v: int) -> bool {
    v >= lo && (in_row(t, p, v, p.0 as int) || in_col(t, p, v, t.len() as int))
}

/// The table is triangular, row `i` holding the cells `(i, 0) ..< (i, i)`, and every entry is
/// one of its elements.
pub open spec fn table_wf(t: Seq<Seq<Option<usize>>>) -> bool {
    &&& forall|i: int| 0 <= i < t.len() ==> #[trigger] t[i].len() == i
    &&& forall|i: int, j: int| 0 <= j < i < t.len() ==> (#[trigger] t[i][j] matches Some(e) ==> e < t.len())
}

/// Cell `a` comes before cell `b` in the search's order: an earlier column, or the same column
/// and an earlier row.
pub open spec fn before(a: (int, int), b: (int, int)) -> bool {
    a.1 < b.1 || (a.1 == b.1 && a.0 < b.0)
}

/// An entry as a digit: `0` for none, `e + 1` for element `e`.
pub open spec fn entry_digit(o: Option<usize>) -> int {
    match o {
        Some(e) => e + 1,
        None => 0,
    }
}

/// The digit of cell number `k` of a table on `n` elements, the cell in column `k / n` and
/// row `k % n`; `0` where there is no such cell.
pub open spec fn digit(t: Seq<Seq<Option<usize>>>, n: int, k: int) -> int {
    let r = k % n;
    let c = k / n;
    if 0 <= c < r < t.len() && c < t[r].len() {
        entry_digit(t[r][c])
    } else {
        0
    }
}

/// The first `k` digits of a table on `n` elements, read as a number in base `n + 1`.
pub open spec fn rank_prefix(t: Seq<Seq<Option<usize>>>, n: int, k: nat) -> int
    decreases k,
{
    if k == 0 {
        0
    } else {
        rank_prefix(t, n, (k - 1) as nat) * (n + 1) + digit(t, n, k - 1)
    }
}

/// How far a search has got: the table's cells, column by column, read as one number.
pub open spec fn rank(t: Seq<Seq<Option<usize>>>) -> int {
    rank_prefix(t, t.len() as int, (t.len() * t.len()) as nat)
}

/// `b` to the power `e`.
pub open spec fn power(b: int, e: nat) -> int
    decreases e,
{
    if e == 0 {
        1
    } else {
        b * power(b, (e - 1) as nat)
    }
}

/// Every digit of a well-formed table lies in `0 ..= n`.
proof fn lemma_digit_bound(t: Seq<Seq<Option<usize>>>, k: int)
    requires
        table_wf(t),
    ensures
        0 <= digit(t, t.len() as int, k) <= t.len(),
{
    let n = t.len() as int;
    let r = k % n;
    let c = k / n;
    if 0 <= c < r < n && c < t[r].len() {
        assert(t[r][c] matches Some(e) ==> e < n);
    }
}

/// A table's number lies below `(n + 1)` to the number of its digits.
pub(crate) proof fn lemma_rank_bound(t: Seq<Seq<Option<usize>>>, k: nat)
    requires
        table_wf(t),
    ensures
        0 <= rank_prefix(t, t.len() as int, k) < power(t.len() + 1int, k),
    decreases k,
{
    let n = t.len() as int;
    if k > 0 {
        lemma_rank_bound(t, (k - 1) as nat);
        lemma_digit_bound(t, k - 1);
        let p = rank_prefix(t, n, (k - 1) as nat);
        let d = digit(t, n, k - 1);
        assert(p * (n + 1) + d < power(n + 1, (k - 1) as nat) * (n + 1) && p * (n + 1) + d >= 0) by (nonlinear_arith)
            requires
                0 <= p < power(n + 1, (k - 1) as nat),
                0 <= d <= n,
        ;
        assert(power(n + 1, k) == (n + 1) * power(n + 1, (k - 1) as nat));
        assert(power(n + 1, (k - 1) as nat) * (n + 1) == (n + 1) * power(n + 1, (k - 1) as nat)) by (nonlinear_arith);
    }
}

/// Tables that agree on their first `k` digits agree on those digits' number.
proof fn lemma_rank_same(t1: Seq<Seq<Option<usize>>>, t2: Seq<Seq<Option<usize>>>, n: int, k: nat)
    requires
        forall|j: int| 0 <= j < k ==> #[trigger] digit(t1, n, j) == digit(t2, n, j),
    ensures
        rank_prefix(t1, n, k) == rank_prefix(t2, n, k),
    decreases k,
{
    if k > 0 {
        lemma_rank_same(t1, t2, n, (k - 1) as nat);
    }
}

/// A table whose first differing digit is larger has a larger number.
proof fn lemma_rank_grows(t1: Seq<Seq<Option<usize>>>, t2: Seq<Seq<Option<usize>>>, i: int, k: nat)
    requires
        table_wf(t1),
        table_wf(t2),
        t1.len() == t2.len(),
        t1.len() >= 1,
        0 <= i < k,
        forall|j: int| 0 <= j < i ==> #[trigger] digit(t1, t1.len() as int, j) == digit(t2, t1.len() as int, j),
        digit(t1, t1.len() as int, i) < digit(t2, t1.len() as int, i),
    ensures
        rank_prefix(t1, t1.len() as int, k) < rank_prefix(t2, t1.len() as int, k),
    decreases k,
{
    let n = t1.len() as int;
    if k == i + 1 {
        lemma_rank_same(t1, t2, n, i as nat);
        let p = rank_prefix(t1, n, i as nat);
        assert(p * (n + 1) + digit(t1, n, i) < p * (n + 1) + digit(t2, n, i));
    } else {
        lemma_rank_grows(t1, t2, i, (k - 1) as nat);
        lemma_rank_bound(t1, (k - 1) as nat);
        lemma_digit_bound(t1, k - 1);
        lemma_digit_bound(t2, k - 1);
        let p1 = rank_prefix(t1, n, (k - 1) as nat);
        let p2 = rank_prefix(t2, n, (k - 1) as nat);
        let d1 = digit(t1, n, k - 1);
        let d2 = digit(t2, n, k - 1);
        assert(p1 * (n + 1) + d1 < p2 * (n + 1) + d2) by (nonlinear_arith)
            requires
                p1 < p2,
                0 <= d1 <= n,
                0 <= d2,
                n >= 1,
        ;
    }
}

/// A table that agrees with another on every cell before cell `q`, and has a larger entry at
/// `q`, has the larger rank.
pub(crate) proof fn lemma_rank_step(t1: Seq<Seq<Option<usize>>>, t2: Seq<Seq<Option<usize>>>, q: (int, int))
    requires
        table_wf(t1),
        table_wf(t2),
        t1.len() == t2.len(),
        0 <= q.1 < q.0 < t1.len(),
        forall|r: int, c: int| 0 <= c < r < t1.len() && before((r, c), q) ==> #[trigger] t1[r][c] == t2[r][c],
        entry_digit(t1[q.0][q.1]) < entry_digit(t2[q.0][q.1]),
    ensures
        rank(t1) < rank(t2),
{
    let n = t1.len() as int;
    let i = q.1 * n + q.0;
    lemma_fundamental_div_mod_converse(i, n, q.1, q.0);
    assert(i < n * n) by (nonlinear_arith)
        requires
            i == q.1 * n + q.0,
            0 <= q.1 < n,
            0 <= q.0 < n,
    ;
    assert forall|j: int| 0 <= j < i implies #[trigger] digit(t1, n, j) == digit(t2, n, j) by {
        lemma_fundamental_div_mod(j, n);
        let r = j % n;
        let c = j / n;
        assert(c <= q.1) by (nonlinear_arith)
            requires
                j == n * c + r,
                0 <= r < n,
                j < q.1 * n + q.0,
                q.0 < n,
        ;
        if c == q.1 {
            assert(r < q.0) by (nonlinear_arith)
                requires
                    j == n * c + r,
                    c == q.1,
                    j < q.1 * n + q.0,
            ;
        }
        if 0 <= c < r < n {
            assert(before((r, c), q));
            assert(t1[r][c] == t2[r][c]);
        }
    }
    lemma_rank_grows(t1, t2, i, (n * n) as nat);
}

/// The first row that the search visits in column `c`.
pub open spec fn start_row(c: int) -> int {
    c + 1 + c % 2
}

/// The pointer lies where the search can step back from without leaving the table: in column
/// `0`, or on or below the first row that the search visits in its column, in a column that
/// the search reaches.
pub open spec fn on_track(n: int, p: (usize, usize)) -> bool {
    p.1 == 0 || (start_row(p.1 as int) <= p.0 && (p.1 >= 2 ==> start_row(p.1 - 1) <= n - 2))
}

/// The cells of a triple set (or cleared) in a table: the triple's three cells change, nothing
/// else does.
pub(crate) proof fn lemma_with_triple(t: Seq<Seq<Option<usize>>>, s: (usize, usize, usize), clear: bool)
    requires
        table_wf(t),
        s.2 < s.1 < s.0 < t.len(),
    ensures
        with_triple(t, s, clear).len() == t.len(),
        forall|i: int| 0 <= i < t.len() ==> #[trigger] with_triple(t, s, clear)[i].len() == t[i].len(),
        forall|r: int, c: int| 0 <= c < r < t.len() ==> #[trigger] with_triple(t, s, clear)[r][c] == (
            if r == s.0 && c == s.1 {
                if clear { None } else { Some(s.2) }
            } else if r == s.0 && c == s.2 {
                if clear { None } else { Some(s.1) }
            } else if r == s.1 && c == s.2 {
                if clear { None } else { Some(s.0) }
            } else {
                t[r][c]
            }),
        table_wf(with_triple(t, s, clear)),
{
    let u = with_triple(t, s, clear);
    assert forall|r: int, c: int| 0 <= c < r < t.len() implies #[trigger] u[r][c] == (
        if r == s.0 && c == s.1 {
            if clear { None } else { Some(s.2) }
        } else if r == s.0 && c == s.2 {
            if clear { None } else { Some(s.1) }
        } else if r == s.1 && c == s.2 {
            if clear { None } else { Some(s.0) }
        } else {
            t[r][c]
        }) by {}
    assert forall|i: int, j: int| 0 <= j < i < u.len() implies (#[trigger] u[i][j] matches Some(e) ==> e < u.len()) by {
        assert(t[i][j] matches Some(e) ==> e < t.len());
    }
}

/// Stepping forward over a filled cell keeps the pointer on track.
proof fn lemma_next_on_track(t: Seq<Seq<Option<usize>>>, p: (usize, usize))
    requires
        table_wf(t),
        t.len() < usize::MAX,
        on_track(t.len() as int, p),
        cell(t, p) is Some,
    ensures
        on_track(t.len() as int, next_cell(t.len() as int, p)),
{
    let n = t.len() as int;
    assert(p.1 < p.0 < n) by {
        assert(t[p.0 as int].len() == p.0);
    }
    let q = next_cell(n, p);
    if p.0 == n - 2 {
        assert(q.1 == p.1 + 1);
        assert(q.0 == start_row(p.1 + 1));
        if p.1 >= 1 {
            assert(start_row(p.1 as int) <= n - 2);
        }
    } else {
        assert(q == ((p.0 + 1) as usize, p.1));
    }
}

/// Walking forward over filled cells keeps the pointer on track.
proof fn lemma_walk_on_track(t: Seq<Seq<Option<usize>>>, p: (usize, usize), k: nat)
    requires
        table_wf(t),
        t.len() < usize::MAX,
        on_track(t.len() as int, p),
        forall|j: nat| j < k ==> #[trigger] cell(t, walk(t.len() as int, p, j)) is Some,
    ensures
        on_track(t.len() as int, walk(t.len() as int, p, k)),
    decreases k,
{
    if k > 0 {
        lemma_walk_on_track(t, p, (k - 1) as nat);
        lemma_walk_next(t.len() as int, p, (k - 1) as nat);
        assert(cell(t, walk(t.len() as int, p, (k - 1) as nat)) is Some);
        lemma_next_on_track(t, walk(t.len() as int, p, (k - 1) as nat));
    }
}

/// One more step of the search's order is the step after the walk so far.
pub(crate) proof fn lemma_walk_next(n: int, p: (usize, usize), k: nat)
    ensures
        walk(n, p, k + 1) == next_cell(n, walk(n, p, k)),
    decreases k,
{
    assert(walk(n, p, k + 1) == walk(n, next_cell(n, p), k));
    if k > 0 {
        lemma_walk_next(n, next_cell(n, p), (k - 1) as nat);
        assert(walk(n, p, k) == walk(n, next_cell(n, p), (k - 1) as nat));
    } else {
        assert(walk(n, next_cell(n, p), 0) == next_cell(n, p));
    }
}


/// A triple written as a set, each number raised by `offset`: `{a, b, c}`.
pub open spec fn set_text(t: (usize, usize, usize), offset: nat) -> Seq<char> {
    seq!['{'] + decimal((t.0 + offset) as nat) + seq![',', ' '] + decimal((t.1 + offset) as nat) + seq![',', ' ']
        + decimal((t.2 + offset) as nat) + seq!['}']
}

/// What the listing of a table's triples writes for cell `(i, j)`: `Undefined` and a line
/// break where it is empty, its triple as a set and a line break where it holds the triple's
/// largest element, and nothing otherwise.
pub open spec fn cell_listing(t: Seq<Seq<Option<usize>>>, i: usize, j: usize, offset: nat) -> Seq<char> {
    match cell(t, (i, j)) {
        None => seq!['U', 'n', 'd', 'e', 'f', 'i', 'n', 'e', 'd', '\n'],
        Some(e) => if e > i && e > j {
            set_text(descending((e, i, j)), offset) + seq!['\n']
        } else {
            seq![]
        },
    }
}

/// The listing of cells `(i, 0) ..< (i, k)`.
pub open spec fn row_listing(t: Seq<Seq<Option<usize>>>, i: usize, k: nat, offset: nat) -> Seq<char>
    decreases k,
{
    if k == 0 {
        seq![]
    } else {
        row_listing(t, i, (k - 1) as nat, offset) + cell_listing(t, i, (k - 1) as usize, offset)
    }
}

/// The listing of rows `1 ..< k`, each over its cells below the diagonal.
pub open spec fn listing(t: Seq<Seq<Option<usize>>>, k: nat, offset: nat) -> Seq<char>
    decreases k,
{
    if k <= 1 {
        seq![]
    } else {
        listing(t, (k - 1) as nat, offset) + row_listing(t, (k - 1) as usize, (k - 1) as nat, offset)
    }
}

/// Every entry of the table, raised by `offset`, fits in a `usize`.
pub open spec fn offset_fits(t: Seq<Seq<Option<usize>>>, offset: usize) -> bool {
    forall|i: int, j: int| 0 <= i < t.len() && 0 <= j < t[i].len() ==> (#[trigger] t[i][j] matches Some(e)
        ==> e + offset <= usize::MAX)
}


/// The lines of a table's text: the text trimmed and split at line breaks, without its last
/// line, the column marks.
pub open spec fn text_lines(s: Seq<char>) -> Seq<Seq<char>> {
    split(trim(s), '\n').drop_last()
}

/// The byte of each line at which its cells start: three past the first `:` of the first line.
pub open spec fn cells_start(lines: Seq<Seq<char>>) -> int {
    3 + byte_len(lines[0].take(first_index(lines[0], ':'))) as int
}

/// A row read from a line: what follows byte `cs`, split at commas, each piece trimmed and
/// read as an element where it is a number, and as an empty cell otherwise.
pub open spec fn read_row(line: Seq<char>, cs: int) -> Seq<Option<usize>> {
    split(line.skip(at_byte(line, cs)->0), ',').map_values(|e: Seq<char>| parse_usize(trim(e)))
}

/// The table that a text in the form of `table_text` describes: an empty first row, then a
/// row read from each line after the first but the column marks.
pub open spec fn read_table(s: Seq<char>) -> Seq<Seq<Option<usize>>> {
    let lines = text_lines(s);
    seq![seq![]] + lines.skip(1).map_values(|l: Seq<char>| read_row(l, cells_start(lines)))
}

/// A text can be read as a table: it has a line besides the column marks, its first line has
/// a `:`, and on every other line the cells' start falls on the start of a character or the
/// line's end.
pub open spec fn readable(s: Seq<char>) -> bool {
    let lines = text_lines(s);
    &&& lines.len() >= 1
    &&& lines[0].contains(':')
    &&& forall|i: int| 1 <= i < lines.len() ==> (at_byte(#[trigger] lines[i], cells_start(lines)) is Some)
}

/// The first `:` of a line lies before its end.
proof fn lemma_first_index_in(s: Seq<char>, c: char)
    requires
        s.contains(c),
    ensures
        0 <= first_index(s, c) < s.len(),
    decreases s.len(),
{
    if s[0] != c {
        let k = choose|k: int| 0 <= k < s.len() && s[k] == c;
        assert(s.skip(1)[k - 1] == c);
        lemma_first_index_in(s.skip(1), c);
    }
}

/// `v` is the least candidate for the cell at `p` that nothing rules out, and it is an
/// element.
pub open spec fn is_least_valid(t: Seq<Seq<Option<usize>>>, p: (usize, usize), v: usize) -> bool {
    let lo = least_candidate(t, p);
    &&& lo <= v < t.len()
    &&& !ruled_out(t, p, lo, v as int)
    &&& forall|w: int| lo <= w < v ==> #[trigger] ruled_out(t, p, lo, w)
}

/// The least valid candidate for the cell at `p`, if there is one (see `is_least_valid`).
#[verifier::opaque]
pub open spec fn least_valid(t: Seq<Seq<Option<usize>>>, p: (usize, usize)) -> Option<usize> {
    if exists|v: usize| is_least_valid(t, p, v) {
        Some(choose|v: usize| is_least_valid(t, p, v))
    } else {
        None
    }
}

/// The first cell at or after `p`, in the search's order, that holds no entry.
#[verifier::opaque]
pub open spec fn first_open(t: Seq<Seq<Option<usize>>>, p: (usize, usize)) -> (usize, usize)
    decreases t.len() - p.1, t.len() - p.0,
{
    if t.len() < usize::MAX && p.1 < p.0 && cell(t, p) is Some {
        first_open(t, next_cell(t.len() as int, p))
    } else {
        p
    }
}

/// Where stepping back from `q` in a table of `n` rows ends: the table, the pointer and the
/// answer. At the first column it stops with `Some(false)`. At a cell that holds the largest
/// element of its triple, the triple is cleared; when the cell has a valid candidate, the
/// triple of the cell and that candidate is entered in its place, with the answer `None`;
/// otherwise the search steps back on from the cell before.
#[verifier::opaque]
pub open spec fn back(n: int, t: Seq<Seq<Option<usize>>>, q: (usize, usize)) -> (
    Seq<Seq<Option<usize>>>,
    (usize, usize),
    Option<bool>,
)
    decreases q.1, q.0,
{
    if q.1 == 0 || q.0 < start_row(q.1 as int) {
        (t, q, Some(false))
    } else if cell(t, q) is Some && cell(t, q)->0 > q.0 && cell(t, q)->0 > q.1 {
        let e = cell(t, q)->0;
        let cleared = with_triple(t, descending((e, q.1, q.0)), true);
        match least_valid(t, q) {
            Some(v) => (with_triple(cleared, descending((v, q.0, q.1)), false), q, None),
            None => back(n, cleared, prev_cell(n, q)),
        }
    } else {
        back(n, t, prev_cell(n, q))
    }
}

/// What one step of the search makes of table `t` with the pointer at `p`: the table, the
/// pointer and the answer. From the first cell with no entry at or after `p` (see
/// `first_open`), it answers `Some(true)` when that lies outside the table, and otherwise
/// enters the triple of the cell and its least valid candidate, answering `None`; with no
/// candidate, it steps back from `p` itself (see `back`).
#[verifier::opaque]
pub open spec fn step_result(t: Seq<Seq<Option<usize>>>, p: (usize, usize)) -> (
    Seq<Seq<Option<usize>>>,
    (usize, usize),
    Option<bool>,
) {
    let f = first_open(t, p);
    if !(f.1 < f.0 < t.len()) {
        (t, f, Some(true))
    } else {
        match least_valid(t, f) {
            Some(v) => (with_triple(t, descending((f.0, f.1, v)), false), f, None),
            None => back(t.len() as int, t, p),
        }
    }
}

/// From a cell below the diagonal that holds an entry, the first cell with none lies at or
/// after the next one; from any other cell, it is the cell itself.
proof fn lemma_first_open_step(t: Seq<Seq<Option<usize>>>, p: (usize, usize))
    ensures
        t.len() < usize::MAX && p.1 < p.0 && cell(t, p) is Some ==> first_open(t, p) == first_open(
            t,
            next_cell(t.len() as int, p),
        ),
        !(t.len() < usize::MAX && p.1 < p.0 && cell(t, p) is Some) ==> first_open(t, p) == p,
{
    reveal(first_open);
}

/// One step back from `q` (see `back`): it stops at the first column, moves on past a cell
/// that does not hold the largest element of its triple, and at one that does, either enters
/// the cell's least valid candidate or clears the triple and moves on.
proof fn lemma_back_unfold(n: int, t: Seq<Seq<Option<usize>>>, q: (usize, usize))
    ensures
        q.1 == 0 || q.0 < start_row(q.1 as int) ==> back(n, t, q) == (t, q, Some(false)),
        !(q.1 == 0 || q.0 < start_row(q.1 as int)) && !(cell(t, q) is Some && cell(t, q)->0 > q.0 && cell(t, q)->0 > q.1)
            ==> back(n, t, q) == back(n, t, prev_cell(n, q)),
        !(q.1 == 0 || q.0 < start_row(q.1 as int)) && cell(t, q) is Some && cell(t, q)->0 > q.0 && cell(t, q)->0 > q.1
            ==> back(n, t, q) == (match least_valid(t, q) {
            Some(v) => (
                with_triple(with_triple(t, descending((cell(t, q)->0, q.1, q.0)), true), descending((v, q.0, q.1)), false),
                q,
                None,
            ),
            None => back(n, with_triple(t, descending((cell(t, q)->0, q.1, q.0)), true), prev_cell(n, q)),
        }),
{
    reveal(back);
}

/// The answer of `min_valid_value` is the least valid candidate of the cell.
proof fn lemma_least_valid(t: Seq<Seq<Option<usize>>>, p: (usize, usize), r: Option<usize>)
    requires
        r matches Some(v) ==> is_least_valid(t, p, v),
        r is None ==> forall|w: int| least_candidate(t, p) <= w < t.len() ==> #[trigger] ruled_out(
            t,
            p,
            least_candidate(t, p),
            w,
        ),
    ensures
        r == least_valid(t, p),
{
    reveal(least_valid);
    let lo = least_candidate(t, p);
    if let Some(v) = r {
        let c = choose|c: usize| is_least_valid(t, p, c);
        assert(is_least_valid(t, p, c));
        if c < v {
            assert(ruled_out(t, p, lo, c as int));
        } else if v < c {
            assert(ruled_out(t, p, lo, v as int));
        }
    } else {
        if exists|v: usize| is_least_valid(t, p, v) {
            let c = choose|c: usize| is_least_valid(t, p, c);
            assert(ruled_out(t, p, lo, c as int));
        }
    }
}

impl TriplesArray {
    /// The table, row by row.
    pub open spec fn table(&self) -> Seq<Seq<Option<usize>>> {
        self.arr@.map_values(|row: Vec<Option<usize>>| row@)
    }

    /// The cell that an optional pointer names: the pointer itself, or the saved one.
    pub open spec fn target(&self, pointer: Option<(usize, usize)>) -> (usize, usize) {
        match pointer {
            Some(p) => p,
            None => self.pointer,
        }
    }

    /// The table is triangular, row `i` holding the cells `(i, 0) ..< (i, i)`, and every entry
    /// is an element (see `table_wf`).
    pub open spec fn wf(&self) -> bool {
        &&& self.arr.len() < usize::MAX
        &&& table_wf(self.table())
    }

    /// The three cells of triple `t` lie in the table.
    pub open spec fn holds_cells(&self, t: (usize, usize, usize)) -> bool {
        let s = descending(t);
        &&& has_cell(self.table(), s.0 as int, s.1 as int)
        &&& has_cell(self.table(), s.0 as int, s.2 as int)
        &&& has_cell(self.table(), s.1 as int, s.2 as int)
    }

    /// The number of elements.
    pub fn len(&self) -> (r: usize)
        ensures
            r == self.table().len(),
    {
        self.arr.len()
    }

    /// The number of elements.
    pub fn omicron(&self) -> (r: usize)
        ensures
            r == self.table().len(),
    {
        self.len()
    }

    /// The number of triples that a full table holds: the pairs of elements over three.
    pub fn batch_count(&self) -> (r: usize)
        requires
            self.table().len() >= 1,
            self.table().len() * (self.table().len() - 1) <= usize::MAX,
        ensures
            r == (self.table().len() * (self.table().len() - 1)) / 6,
    {
        (self.omicron() * (self.omicron() - 1)) / 6
    }

    /// The triple in descending order.
    pub fn sort_triple(triple: (usize, usize, usize)) -> (r: (usize, usize, usize))
        ensures
            r == descending(triple),
    {
        let mut t = triple;
        if t.0 < t.1 {
            let x = t.0;
            t.0 = t.1;
            t.1 = x;
        }
        if t.1 < t.2 {
            let x = t.1;
            t.1 = t.2;
            t.2 = x;
        }
        if t.0 < t.1 {
            let x = t.0;
            t.0 = t.1;
            t.1 = x;
        }
        t
    }

    /// Enters a triple: each of its three cells gets the third element.
    pub fn set_triple(&mut self, triple: (usize, usize, usize))
        requires
            old(self).holds_cells(triple),
        ensures
            final(self).table() == with_triple(old(self).table(), descending(triple), false),
            final(self).pointer == old(self).pointer,
            final(self).mem == old(self).mem,
    {
        let t = Self::sort_triple(triple);
        let ghost t0 = self.table();
        self.arr[t.0][t.1] = Some(t.2);
        self.arr[t.0][t.2] = Some(t.1);
        self.arr[t.1][t.2] = Some(t.0);
        proof {
            assert(self.table() =~= with_triple(t0, t, false));
        }
    }

    /// Clears a triple's three cells.
    pub fn remove_triple(&mut self, triple: (usize, usize, usize))
        requires
            old(self).holds_cells(triple),
        ensures
            final(self).table() == with_triple(old(self).table(), descending(triple), true),
            final(self).pointer == old(self).pointer,
            final(self).mem == old(self).mem,
    {
        let t = Self::sort_triple(triple);
        let ghost t0 = self.table();
        self.arr[t.0][t.1] = None;
        self.arr[t.0][t.2] = None;
        self.arr[t.1][t.2] = None;
        proof {
            assert(self.table() =~= with_triple(t0, t, true));
        }
    }

    /// The entry of a cell (the saved pointer's where none is given), `None` outside the table.
    pub fn get(&self, pointer: Option<(usize, usize)>) -> (r: Option<usize>)
        ensures
            r == cell(self.table(), self.target(pointer)),
    {
        let p = match pointer {
            Some(q) => q,
            None => self.pointer,
        };
        if p.0 < self.arr.len() && p.1 < self.arr[p.0].len() {
            self.arr[p.0][p.1]
        } else {
            None
        }
    }

    /// The triple that a cell (the saved pointer's where none is given) holds, in descending
    /// order.
    pub fn get_triple(&self, pointer: Option<(usize, usize)>) -> (r: Option<(usize, usize, usize)>)
        ensures
            r == (match cell(self.table(), self.target(pointer)) {
                Some(e) => Some(descending((e, self.target(pointer).0, self.target(pointer).1))),
                None => None,
            }),
    {
        let p = match pointer {
            Some(q) => q,
            None => self.pointer,
        };
        match self.get(pointer) {
            Some(e) => Some(Self::sort_triple((e, p.0, p.1))),
            None => None,
        }
    }

    /// The cell (the saved pointer's where none is given) holds the largest element of its
    /// triple.
    pub fn is_first_in_triple(&self, pointer: Option<(usize, usize)>) -> (r: bool)
        ensures
            r == (cell(self.table(), self.target(pointer)) matches Some(e) && e > self.target(pointer).0
                && e > self.target(pointer).1),
    {
        let p = match pointer {
            Some(q) => q,
            None => self.pointer,
        };
        match self.get(pointer) {
            Some(e) => e > p.0 && e > p.1,
            None => false,
        }
    }

    /// The pointer (the saved one where none is given) names a cell below the diagonal.
    pub fn pointer_inbounds(&self, pointer: Option<(usize, usize)>) -> (r: bool)
        ensures
            r == (self.target(pointer).0 < self.table().len() && self.target(pointer).1
                < self.target(pointer).0),
    {
        let p = match pointer {
            Some(q) => q,
            None => self.pointer,
        };
        p.0 < self.len() && p.1 < p.0
    }

    /// A fresh search on `omicron` elements: an empty triangular table holding the triples
    /// `{2 * i, 2 * i - 1, 0}` with `0 < 2 * i < omicron`, and the pointer at `(3, 1)`.
    pub fn new(omicron: usize) -> (r: TriplesArray)
        requires
            1 <= omicron < usize::MAX,
        ensures
            r.wf(),
            r.table().len() == omicron,
            forall|i: int, j: int| 0 <= j < i < omicron ==> #[trigger] r.table()[i][j] == initial_cell(omicron as int, i, j),
            r.pointer == (3usize, 1usize),
            r.mem@ == Seq::<usize>::empty(),
    {
        let mut arr: Vec<Vec<Option<usize>>> = Vec::new();
        let mut i: usize = 0;
        while i < omicron
            invariant
                0 <= i <= omicron,
                arr.len() == i,
                forall|r: int| 0 <= r < i ==> #[trigger] arr@[r]@.len() == r,
                forall|r: int, c: int| 0 <= c < r < i ==> #[trigger] arr@[r]@[c] == None::<usize>,
            decreases omicron - i,
        {
            let mut row: Vec<Option<usize>> = Vec::new();
            let mut j: usize = 0;
            while j < i
                invariant
                    0 <= j <= i,
                    row.len() == j,
                    forall|c: int| 0 <= c < j ==> #[trigger] row@[c] == None::<usize>,
                decreases i - j,
            {
                row.push(None);
                j += 1;
            }
            arr.push(row);
            i += 1;
        }
        let mut this = TriplesArray { arr, pointer: (3, 1), mem: Vec::new() };
        let half = omicron / 2 + omicron % 2;
        let mut k: usize = 1;
        while k < half
            invariant
                1 <= k <= half || half == 0,
                half == omicron / 2 + omicron % 2,
                this.table().len() == omicron,
                omicron < usize::MAX,
                this.pointer == (3usize, 1usize),
                this.mem@ == Seq::<usize>::empty(),
                forall|r: int| 0 <= r < omicron ==> #[trigger] this.table()[r].len() == r,
                forall|r: int, c: int| 0 <= c < r < omicron ==> #[trigger] this.table()[r][c] == (if r < 2 * k - 1 {
                    initial_cell(omicron as int, r, c)
                } else {
                    None
                }),
            decreases half - k,
        {
            assert(2 * k < omicron);
            let ghost t0 = this.table();
            this.set_triple((2 * k, 2 * k - 1, 0));
            proof {
                assert(descending(((2 * k) as usize, (2 * k - 1) as usize, 0usize)) == ((2 * k) as usize, (2 * k - 1) as usize, 0usize));
                assert forall|r: int, c: int| 0 <= c < r < omicron implies #[trigger] this.table()[r][c] == (if r < 2 * (k + 1) - 1 {
                    initial_cell(omicron as int, r, c)
                } else {
                    None
                }) by {
                    if r == 2 * k - 1 || r == 2 * k {
                    } else {
                        assert(this.table()[r] == t0[r]);
                    }
                }
            }
            k += 1;
        }
        proof {
            assert forall|r: int, c: int| 0 <= c < r < omicron implies #[trigger] this.table()[r][c] == initial_cell(omicron as int, r, c) by {
                if r >= 2 * k - 1 {
                    assert(r >= 2 * half - 1);
                }
            }
        }
        this
    }

    /// Steps the pointer back to the cell before it in the search's order.
    pub fn decrement_pointer(&mut self)
        requires
            old(self).pointer.1 + 2 <= usize::MAX,
            old(self).pointer.0 == old(self).pointer.1 + 1 + old(self).pointer.1 % 2 ==> old(self).pointer.1 >= 1
                && old(self).table().len() >= 2,
            old(self).pointer.0 != old(self).pointer.1 + 1 + old(self).pointer.1 % 2 ==> old(self).pointer.0 >= 1,
        ensures
            final(self).pointer == prev_cell(old(self).table().len() as int, old(self).pointer),
            final(self).arr == old(self).arr,
            final(self).mem == old(self).mem,
    {
        if self.pointer.0 == self.pointer.1 + 1 + self.pointer.1 % 2 {
            self.pointer.1 = self.pointer.1 - 1;
            self.pointer.0 = self.arr.len() - 2;
        } else {
            self.pointer.0 = self.pointer.0 - 1;
        }
    }

    /// Moves the pointer forward, in the search's order, to the first cell with no entry.
    pub fn pointer_to_front(&mut self)
        requires
            old(self).wf(),
        ensures
            exists|k: nat| {
                &&& final(self).pointer == walk(old(self).table().len() as int, old(self).pointer, k)
                &&& forall|j: nat| j < k ==> #[trigger] cell(
                    old(self).table(),
                    walk(old(self).table().len() as int, old(self).pointer, j),
                ) is Some
            },
            cell(final(self).table(), final(self).pointer) is None,
            final(self).arr == old(self).arr,
            final(self).mem == old(self).mem,
            final(self).pointer == first_open(old(self).table(), old(self).pointer),
    {
        let ghost n = self.table().len() as int;
        let ghost start = self.pointer;
        let ghost mut k: nat = 0;
        while self.get(None).is_some()
            invariant
                self.wf(),
                first_open(self.table(), self.pointer) == first_open(old(self).table(), start),
                n == self.table().len(),
                self.arr == old(self).arr,
                self.mem == old(self).mem,
                self.pointer == walk(n, start, k),
                start == old(self).pointer,
                forall|j: nat| j < k ==> #[trigger] cell(self.table(), walk(n, start, j)) is Some,
            decreases self.arr.len() - self.pointer.1, self.arr.len() - self.pointer.0,
        {
            proof {
                lemma_walk_next(n, start, k);
                assert(self.table()[self.pointer.0 as int].len() == self.pointer.0);
                lemma_first_open_step(self.table(), self.pointer);
            }
            if self.pointer.0 == self.arr.len() - 2 {
                self.pointer.1 = self.pointer.1 + 1;
                self.pointer.0 = self.pointer.1 + 1 + self.pointer.1 % 2;
            } else {
                self.pointer.0 = self.pointer.0 + 1;
            }
            proof {
                k = k + 1;
            }
        }
        proof {
            lemma_first_open_step(self.table(), self.pointer);
        }
    }

    /// The least element that can go into the cell at the pointer: above the cell's entry and
    /// both of its elements, and ruled out neither by the pointer's row nor by its column
    /// (see `ruled_out`); `None` when there is none below `omicron`. Unless the least
    /// candidate is `omicron` already, the scratch list `mem` ends up holding the ruled-out
    /// candidates in increasing order.
    pub fn min_valid_value(&mut self) -> (r: Option<usize>)
        requires
            old(self).wf(),
            old(self).pointer.1 < old(self).pointer.0 < old(self).table().len(),
        ensures
            final(self).arr == old(self).arr,
            final(self).pointer == old(self).pointer,
            ({
                let t = old(self).table();
                let p = old(self).pointer;
                let lo = least_candidate(t, p);
                &&& r matches Some(v) ==> lo <= v < t.len() && !ruled_out(t, p, lo, v as int) && forall|w: int|
                    lo <= w < v ==> #[trigger] ruled_out(t, p, lo, w)
                &&& r is None ==> forall|w: int| lo <= w < t.len() ==> #[trigger] ruled_out(t, p, lo, w)
                &&& lo == t.len() ==> final(self).mem == old(self).mem
                &&& lo < t.len() ==> strictly_sorted(final(self).mem.items()) && forall|v: int|
                    #[trigger] final(self).mem.items().contains(v) <==> ruled_out(t, p, lo, v)
            }),
    {
        let ghost t = self.table();
        let p = self.pointer;
        let n = self.arr.len();
        proof {
            assert(t[p.0 as int].len() == p.0);
        }
        let cur = match self.get(None) {
            Some(e) => e,
            None => 0,
        };
        let mut min = cur + 1;
        if p.0 + 1 > min {
            min = p.0 + 1;
        }
        if p.1 + 1 > min {
            min = p.1 + 1;
        }
        let ghost lo = min as int;
        assert(lo == least_candidate(t, p));
        if min == n {
            return None;
        }
        self.mem.clear();
        proof {
            assert(self.mem.items() =~= Seq::<int>::empty());
        }
        let mut i: usize = 0;
        while i < p.0
            invariant
                0 <= i <= p.0,
                self.table() == t,
                self.arr == old(self).arr,
                self.pointer == p,
                self.wf(),
                p.1 < p.0 < n,
                n == t.len(),
                t[p.0 as int].len() == p.0,
                lo == min,
                strictly_sorted(self.mem.items()),
                forall|v: int| #[trigger] self.mem.items().contains(v) <==> (v >= lo && in_row(t, p, v, i as int)),
            decreases p.0 - i,
        {
            let ghost before = self.mem.items();
            if let Some(inv) = self.arr[p.0][i] {
                if min <= inv {
                    let _ = self.mem.b_insert_keep(inv);
                }
            }
            proof {
                assert forall|v: int| #[trigger] self.mem.items().contains(v) <==> (v >= lo && in_row(t, p, v, i + 1)) by {
                    if v >= lo && in_row(t, p, v, i + 1) && !in_row(t, p, v, i as int) {
                        let j = choose|j: int| 0 <= j < i + 1 && holds(#[trigger] t[p.0 as int][j], v);
                        assert(j == i);
                        assert(self.mem.items().to_set().contains(v));
                    }
                    if self.mem.items().contains(v) && !before.contains(v) {
                        assert(self.mem.items().to_set().contains(v));
                        assert(holds(t[p.0 as int][i as int], v));
                    }
                    if before.contains(v) {
                        assert(before.to_set().contains(v));
                        assert(self.mem.items().to_set().contains(v));
                    }
                    if self.mem.items().contains(v) && before.contains(v) {
                    }
                }
            }
            i += 1;
        }
        let rs = if (p.1 + 1) % 2 == 1 {
            p.1 + 1
        } else {
            p.1 + 2
        };
        let mut i: usize = rs;
        while i < n
            invariant
                rs == row_start(p.1 as int),
                rs <= i <= n || (rs > n && i == rs),
                self.table() == t,
                self.arr == old(self).arr,
                self.pointer == p,
                self.wf(),
                p.1 < p.0 < n,
                n == t.len(),
                lo == min,
                strictly_sorted(self.mem.items()),
                forall|v: int| #[trigger] self.mem.items().contains(v) <==> (v >= lo && (in_row(t, p, v, p.0 as int) || in_col(t, p, v, i as int))),
            decreases n - i,
        {
            assert(t[i as int].len() == i);
            let ghost before = self.mem.items();
            if let Some(inv) = self.arr[i][p.1] {
                if min <= inv {
                    let _ = self.mem.b_insert_keep(inv);
                }
                let ghost mid = self.mem.items();
                if min <= i {
                    let _ = self.mem.b_insert_keep(i);
                }
                proof {
                    assert(mid.to_set().contains(inv as int) || inv < min);
                    assert(self.mem.items().to_set() =~= if min <= i { mid.to_set().insert(i as int) } else { mid.to_set() });
                }
            }
            proof {
                assert forall|v: int| #[trigger] self.mem.items().contains(v) <==> (v >= lo && (in_row(t, p, v, p.0 as int) || in_col(t, p, v, i + 1))) by {
                    assert(self.mem.items().contains(v) <==> self.mem.items().to_set().contains(v));
                    assert(before.contains(v) <==> before.to_set().contains(v));
                    if in_col(t, p, v, i + 1) && !in_col(t, p, v, i as int) {
                        let j = choose|j: int|
                            row_start(p.1 as int) <= j < i + 1 && #[trigger] t[j][p.1 as int] is Some && (holds(t[j][p.1 as int], v)
                                || j == v);
                        assert(j == i);
                    }
                    if in_col(t, p, v, i as int) {
                        assert(in_col(t, p, v, i + 1)) by {
                            let j = choose|j: int|
                                row_start(p.1 as int) <= j < i && #[trigger] t[j][p.1 as int] is Some && (holds(t[j][p.1 as int], v)
                                    || j == v);
                        }
                    }
                    if self.mem.items().contains(v) && !before.contains(v) {
                        assert(t[i as int][p.1 as int] is Some && (holds(t[i as int][p.1 as int], v) || i == v));
                    }
                }
            }
            i += 1;
        }
        proof {
            assert forall|v: int| #[trigger] self.mem.items().contains(v) <==> ruled_out(t, p, lo, v) by {
                if in_col(t, p, v, i as int) != in_col(t, p, v, n as int) {
                    assert(rs > n);
                    if in_col(t, p, v, n as int) {
                        let j = choose|j: int|
                            row_start(p.1 as int) <= j < n && #[trigger] t[j][p.1 as int] is Some && (holds(t[j][p.1 as int], v)
                                || j == v);
                    }
                    if in_col(t, p, v, i as int) {
                        let j = choose|j: int|
                            row_start(p.1 as int) <= j < i && #[trigger] t[j][p.1 as int] is Some && (holds(t[j][p.1 as int], v)
                                || j == v);
                    }
                }
            }
            assert forall|v: int| ruled_out(t, p, lo, v) implies v < n by {
                if in_row(t, p, v, p.0 as int) {
                    let j = choose|j: int| 0 <= j < p.0 && holds(#[trigger] t[p.0 as int][j], v);
                    assert(t[p.0 as int][j] matches Some(e) ==> e < n);
                }
                if in_col(t, p, v, n as int) {
                    let j = choose|j: int|
                        row_start(p.1 as int) <= j < n && #[trigger] t[j][p.1 as int] is Some && (holds(t[j][p.1 as int], v)
                            || j == v);
                    assert(t[j][p.1 as int] matches Some(e) ==> e < n);
                }
            }
        }
        if self.mem.len() == 0 {
            proof {
                assert(!ruled_out(t, p, lo, min as int)) by {
                    assert(!self.mem.items().contains(min as int));
                }
                assert forall|w: int| lo <= w < min implies #[trigger] ruled_out(t, p, lo, w) by {}
            }
            return Some(min);
        }
        let mut k: usize = 0;
        while k < self.mem.len()
            invariant
                0 <= k <= self.mem.len(),
                self.arr == old(self).arr,
                self.pointer == p,
                p == old(self).pointer,
                t == old(self).table(),
                lo == least_candidate(t, p),
                lo <= min <= n,
                n == t.len(),
                strictly_sorted(self.mem.items()),
                forall|v: int| #[trigger] self.mem.items().contains(v) <==> ruled_out(t, p, lo, v),
                forall|v: int| ruled_out(t, p, lo, v) ==> v < n,
                forall|w: int| lo <= w < min ==> #[trigger] ruled_out(t, p, lo, w),
                forall|j: int| 0 <= j < k ==> #[trigger] self.mem.items()[j] < min,
            decreases self.mem.len() - k,
        {
            let inv = self.mem[k];
            assert(self.mem.items()[k as int] == inv);
            proof {
                assert(self.mem.items().contains(inv as int));
                assert(inv < n);
            }
            if min < inv {
                proof {
                    assert(!self.mem.items().contains(min as int)) by {
                        if self.mem.items().contains(min as int) {
                            let j = choose|j: int| 0 <= j < self.mem.items().len() && self.mem.items()[j] == min;
                            if j < k {
                                assert(self.mem.items()[j] < min);
                            } else if j > k {
                                assert(self.mem.items()[k as int] < self.mem.items()[j]);
                            }
                        }
                    }
                }
                return Some(min);
            }
            proof {
                assert(self.mem.items().contains(inv as int));
            }
            if inv + 1 > min {
                min = inv + 1;
            }
            proof {
                assert forall|j: int| 0 <= j < k + 1 implies #[trigger] self.mem.items()[j] < min by {
                    if j < k {
                        assert(self.mem.items()[j] < self.mem.items()[k as int] || j == k);
                    }
                }
            }
            k += 1;
        }
        proof {
            assert(!self.mem.items().contains(min as int)) by {
                if self.mem.items().contains(min as int) {
                    let j = choose|j: int| 0 <= j < self.mem.items().len() && self.mem.items()[j] == min;
                    assert(self.mem.items()[j] < min);
                }
            }
        }
        if min == n {
            None
        } else {
            Some(min)
        }
    }

    /// One step of the search; `step_result` states what it leaves and answers. From the first
    /// cell with no entry at or after the pointer, it
    /// enters the triple of that cell and its least candidate (see `min_valid_value`) and
    /// answers `None`. When the cells run out past the table's end it answers `Some(true)`.
    /// When the front cell has no candidate, it steps back from the pointer, clearing each
    /// triple that it meets at the cell of its two smallest elements, until one of them can
    /// take a larger third element, which it enters, answering `None`; it answers
    /// `Some(false)` when it reaches the first column. A step that answers `None` raises the
    /// table's rank, so that a search ends; and it passes over no completion of a fresh table
    /// (see `none_missed`), so that one answering `Some(false)` leaves none.
    #[verifier::spinoff_prover]
    #[verifier::rlimit(80)]
    pub fn step(&mut self) -> (r: Option<bool>)
        requires
            old(self).wf(),
            on_track(old(self).table().len() as int, old(self).pointer),
        ensures
            final(self).wf(),
            (final(self).table(), final(self).pointer, r) == step_result(old(self).table(), old(self).pointer),
            final(self).table().len() == old(self).table().len(),
            r == Some(true) ==> {
                &&& final(self).table() == old(self).table()
                &&& !(final(self).pointer.1 < final(self).pointer.0 < final(self).table().len())
                &&& exists|k: nat| {
                    &&& final(self).pointer == walk(old(self).table().len() as int, old(self).pointer, k)
                    &&& forall|j: nat| j < k ==> #[trigger] cell(
                        old(self).table(),
                        walk(old(self).table().len() as int, old(self).pointer, j),
                    ) is Some
                }
            },
            r is None ==> on_track(final(self).table().len() as int, final(self).pointer) && rank(
                old(self).table(),
            ) < rank(final(self).table()),
            r == Some(false) ==> final(self).pointer.1 == 0,
            sound(old(self).table(), old(self).pointer) ==> sound(final(self).table(), final(self).pointer),
            placed(old(self).table().len() as int, old(self).pointer) && filled_upto(old(self).table(), old(self).pointer)
                ==> {
                &&& r is None ==> placed(final(self).table().len() as int, final(self).pointer) && filled_upto(
                    final(self).table(),
                    final(self).pointer,
                )
                &&& r == Some(true) ==> walk_filled(final(self).table())
            },
            sound(old(self).table(), old(self).pointer) && placed(old(self).table().len() as int, old(self).pointer)
                && filled_upto(old(self).table(), old(self).pointer) && none_missed(old(self).table(), old(self).pointer)
                ==> {
                &&& r is None ==> none_missed(final(self).table(), final(self).pointer)
                &&& r == Some(false) ==> forall|u: Seq<Seq<Option<usize>>>| !completion(u, old(self).table().len() as int)
            },
    {
        let ghost t0 = self.table();
        let ghost n = t0.len() as int;
        let ghost good = sound(t0, self.pointer);
        let ghost fine = placed(n, self.pointer) && filled_upto(t0, self.pointer);
        let prev_pointer = self.pointer;
        self.pointer_to_front();
        let ghost k0: nat = choose|k: nat| {
            &&& self.pointer == walk(n, prev_pointer, k)
            &&& forall|j: nat| j < k ==> #[trigger] cell(t0, walk(n, prev_pointer, j)) is Some
        };
        proof {
            let k = choose|k: nat| {
                &&& self.pointer == walk(n, prev_pointer, k)
                &&& forall|j: nat| j < k ==> #[trigger] cell(t0, walk(n, prev_pointer, j)) is Some
            };
            if good {
                lemma_walk_owned(t0, prev_pointer, k);
            }
            if fine {
                lemma_walk_filled(t0, prev_pointer, k);
            }
        }
        if !self.pointer_inbounds(None) {
            proof {
                if fine {
                    lemma_outside_all_filled(t0, self.pointer);
                }
                assert(step_result(t0, prev_pointer) == (t0, self.pointer, Some(true))) by {
                    reveal(step_result);
                }
            }
            return Some(true);
        }
        proof {
            let k = choose|k: nat| {
                &&& self.pointer == walk(n, prev_pointer, k)
                &&& forall|j: nat| j < k ==> #[trigger] cell(t0, walk(n, prev_pointer, j)) is Some
            };
            lemma_walk_on_track(t0, prev_pointer, k);
        }
        let front = self.pointer;
        let ghost track = good && fine && none_missed(t0, prev_pointer);
        proof {
            if track {
                lemma_walk_owned(t0, prev_pointer, k0);
                lemma_walk_filled(t0, prev_pointer, k0);
                lemma_walk_forward(t0, prev_pointer, k0);
                lemma_fold(t0);
                lemma_walk_misses_none(t0, prev_pointer, front);
                if k0 > 0 {
                    assert(cell(t0, walk(n, prev_pointer, 0)) is Some);
                }
            }
        }
        if let Some(val) = self.min_valid_value() {
            proof {
                lemma_least_valid(t0, front, Some(val));
                assert(descending((front.0, front.1, val)) == (val, front.0, front.1));
                lemma_with_triple(t0, (val, front.0, front.1), false);
                if good {
                    assert(t0[front.0 as int].len() == front.0);
                    lemma_set_sound(t0, front, val);
                }
            }
            self.set_triple((self.pointer.0, self.pointer.1, val));
            proof {
                lemma_rank_step(t0, self.table(), (front.0 as int, front.1 as int));
                if track {
                    assert(none_missed(self.table(), self.pointer)) by {
                        lemma_front_takes(t0, front, val);
                    }
                }
                if fine {
                    assert forall|r: int, c: int|
                        walk_cell(n, r, c) && before((r, c), (front.0 as int, front.1 as int)) implies #[trigger] self.table()[r][c]
                        is Some by {
                        assert(self.table()[r][c] == t0[r][c]);
                    }
                }
                assert(step_result(t0, prev_pointer) == (self.table(), front, None::<bool>)) by {
                    reveal(step_result);
                }
            }
            return None;
        }
        proof {
            lemma_least_valid(t0, front, None);
            assert(step_result(t0, prev_pointer) == back(n, t0, prev_pointer)) by {
                reveal(step_result);
            }
            if track {
                assert(all_beyond(t0, prev_pointer)) by {
                    lemma_front_fails(t0, prev_pointer, front);
                }
                assert(prev_pointer.0 < n) by {
                    if prev_pointer.1 < front.1 {
                        lemma_start_row_mono(prev_pointer.1 as int, front.1 as int);
                    }
                }
            }
        }
        self.pointer = prev_pointer;
        while self.pointer.1 > 0
            invariant
                self.wf(),
                back(n, self.table(), self.pointer) == back(n, t0, prev_pointer),
                step_result(t0, prev_pointer) == back(n, t0, prev_pointer),
                self.table().len() == n,
                n == t0.len(),
                t0 == old(self).table(),
                n >= 2,
                table_wf(t0),
                on_track(n, self.pointer),
                forall|r: int, c: int|
                    0 <= c < r < n && (before((r, c), (self.pointer.0 as int, self.pointer.1 as int)) || (r == self.pointer.0
                        && c == self.pointer.1)) ==> #[trigger] self.table()[r][c] == t0[r][c],
                good == sound(t0, old(self).pointer),
                good ==> sound(self.table(), self.pointer),
                fine == (placed(n, old(self).pointer) && filled_upto(t0, old(self).pointer)),
                prev_pointer == old(self).pointer,
                before((self.pointer.0 as int, self.pointer.1 as int), (prev_pointer.0 as int, prev_pointer.1 as int)) || self.pointer
                    == prev_pointer,
                fine && self.pointer.1 >= 1 ==> placed(n, self.pointer),
                track == (good && fine && none_missed(t0, prev_pointer)),
                track ==> n >= 3 && self.pointer.0 < n && all_beyond(self.table(), self.pointer),
                track && self.pointer.1 == 0 ==> self.pointer.0 == n - 2,
            decreases self.pointer.1, self.pointer.0,
        {
            let q = self.pointer;
            let ghost t1 = self.table();
            if self.is_first_in_triple(None) {
                let ghost e = cell(t1, q)->0;
                proof {
                    assert(t1[q.0 as int].len() == q.0);
                    assert(t1[q.0 as int][q.1 as int] matches Some(x) ==> x < n);
                }
                if let Some(val) = self.min_valid_value() {
                    proof {
                        lemma_least_valid(t1, q, Some(val));
                        assert(descending((e, q.1, q.0)) == (e, q.0, q.1));
                        lemma_with_triple(t1, (e, q.0, q.1), true);
                    }
                    self.unset(None);
                    let ghost t2 = self.table();
                    proof {
                        assert(descending((val, q.0, q.1)) == (val, q.0, q.1));
                        lemma_with_triple(t2, (val, q.0, q.1), false);
                        if good {
                            lemma_clear_sound(t1, q, e);
                            lemma_cleared_lines(t1, t2, q, val as int);
                            lemma_set_sound(t2, q, val);
                        }
                    }
                    let ghost t3 = with_triple(t2, (val, q.0, q.1), false);
                    proof {
                        if fine {
                            assert forall|r: int, c: int|
                                walk_cell(n, r, c) && before((r, c), (q.0 as int, q.1 as int)) implies #[trigger] t3[r][c] is Some by {
                                assert(t3[r][c] == t2[r][c]);
                                assert(t2[r][c] == t1[r][c]);
                                assert(t1[r][c] == t0[r][c]);
                            }
                        }
                    }
                    self.set_triple((val, self.pointer.0, self.pointer.1));
                    proof {
                        assert(back(n, t1, q) == (self.table(), q, None::<bool>)) by {
                            lemma_back_unfold(n, t1, q);
                        }
                        assert forall|r: int, c: int| 0 <= c < r < n && before((r, c), (q.0 as int, q.1 as int))
                            implies #[trigger] t0[r][c] == self.table()[r][c] by {
                            assert(t1[r][c] == t0[r][c]);
                        }
                        assert(t1[q.0 as int][q.1 as int] == t0[q.0 as int][q.1 as int]);
                        lemma_rank_step(t0, self.table(), (q.0 as int, q.1 as int));
                        if track {
                            assert(none_missed(self.table(), self.pointer)) by {
                                lemma_fold(t1);
                                lemma_back_takes(t1, q, e, val);
                            }
                        }
                    }
                    return None;
                }
                proof {
                    lemma_least_valid(t1, q, None);
                    assert(descending((e, q.1, q.0)) == (e, q.0, q.1));
                    lemma_with_triple(t1, (e, q.0, q.1), true);
                }
                self.unset(None);
                proof {
                    assert(back(n, t1, q) == back(n, self.table(), prev_cell(n, q))) by {
                        lemma_back_unfold(n, t1, q);
                    }
                    if good {
                        lemma_clear_sound(t1, q, e);
                        lemma_back_owned(self.table(), q);
                    }
                    if fine {
                        lemma_back_placed(n, q);
                    }
                    if track {
                        assert(all_beyond(self.table(), prev_cell(n, q))) by {
                            lemma_fold(t1);
                            lemma_fold(self.table());
                            lemma_filled_kept(t0, t1, prev_pointer, q);
                            lemma_back_fails(t1, q, e);
                        }
                    }
                }
                self.decrement_pointer();
            } else {
                proof {
                    assert(back(n, t1, q) == back(n, t1, prev_cell(n, q))) by {
                        lemma_back_unfold(n, t1, q);
                    }
                    if good {
                        lemma_unowned_here(t1, q);
                        lemma_back_owned(t1, q);
                    }
                    if fine {
                        lemma_back_placed(n, q);
                    }
                    if track {
                        assert(all_beyond(t1, prev_cell(n, q))) by {
                            lemma_fold(t1);
                            lemma_filled_kept(t0, t1, prev_pointer, q);
                            lemma_back_skips(t1, q);
                        }
                    }
                }
                self.decrement_pointer();
            }
            proof {
                let p2 = self.pointer;
                assert(before((p2.0 as int, p2.1 as int), (q.0 as int, q.1 as int)));
                assert forall|r: int, c: int|
                    0 <= c < r < n && (before((r, c), (p2.0 as int, p2.1 as int)) || (r == p2.0 && c == p2.1)) implies
                    #[trigger] self.table()[r][c] == t0[r][c] by {
                    assert(before((r, c), (q.0 as int, q.1 as int)));
                    assert(t1[r][c] == t0[r][c]);
                }
            }
        }
        proof {
            assert(back(n, self.table(), self.pointer) == (self.table(), self.pointer, Some(false))) by {
                lemma_back_unfold(n, self.table(), self.pointer);
            }
            if track {
                assert(forall|u: Seq<Seq<Option<usize>>>| !completion(u, n)) by {
                    lemma_fold(self.table());
                    lemma_search_exhausted(self.table(), self.pointer);
                }
            }
        }
        Some(false)
    }

    /// Runs the search until it ends: `true` when it fills the table, `false` when it has
    /// stepped back to the first column. A search that answers `false` has missed nothing:
    /// where no completion lay behind its table at the start (as for a fresh table), there is
    /// none. Progress is not printed here: `status_updates` asks a caller that steps the
    /// search itself to report it.
    pub fn check(&mut self, status_updates: bool) -> (r: bool)
        requires
            old(self).wf(),
            on_track(old(self).table().len() as int, old(self).pointer),
        ensures
            final(self).wf(),
            final(self).table().len() == old(self).table().len(),
            r ==> !(final(self).pointer.1 < final(self).pointer.0 < final(self).table().len()),
            !r ==> final(self).pointer.1 == 0,
            sound(old(self).table(), old(self).pointer) ==> sound(final(self).table(), final(self).pointer),
            placed(old(self).table().len() as int, old(self).pointer) && filled_upto(old(self).table(), old(self).pointer)
                && r ==> walk_filled(final(self).table()),
            sound(old(self).table(), old(self).pointer) && placed(old(self).table().len() as int, old(self).pointer)
                && filled_upto(old(self).table(), old(self).pointer) && none_missed(old(self).table(), old(self).pointer)
                && !r ==> forall|u: Seq<Seq<Option<usize>>>| !completion(u, old(self).table().len() as int),
    {
        let ghost n = self.table().len() as int;
        let ghost good = sound(self.table(), self.pointer);
        let ghost fine = placed(n, self.pointer) && filled_upto(self.table(), self.pointer);
        let ghost track = good && fine && none_missed(self.table(), self.pointer);
        loop
            invariant
                self.wf(),
                self.table().len() == n,
                n == old(self).table().len(),
                on_track(n, self.pointer),
                good == sound(old(self).table(), old(self).pointer),
                good ==> sound(self.table(), self.pointer),
                fine == (placed(n, old(self).pointer) && filled_upto(old(self).table(), old(self).pointer)),
                fine ==> placed(n, self.pointer) && filled_upto(self.table(), self.pointer),
                track == (good && fine && none_missed(old(self).table(), old(self).pointer)),
                track ==> none_missed(self.table(), self.pointer),
            decreases power(n + 1, (n * n) as nat) - rank(self.table()),
        {
            let ghost before = self.table();
            proof {
                lemma_rank_bound(before, (n * n) as nat);
            }
            match self.step() {
                None => {
                    proof {
                        lemma_rank_bound(self.table(), (n * n) as nat);
                    }
                },
                Some(ans) => {
                    return ans;
                },
            }
        }
    }

    /// Runs a search on `omicron` elements from a fresh table, without any shortcut: `Ok` with
    /// the filled table when it succeeds, `Err` with the table where it ends otherwise, and
    /// for two elements at once. `Err` comes only where no Steiner triple system on the
    /// elements exists: none has the fresh table's triples `{0, 2 * k - 1, 2 * k}`, and every
    /// one can be renamed to have them.
    pub fn generate_stupid(omicron: usize, status_updates: bool) -> (r: Result<TriplesArray, TriplesArray>)
        requires
            1 <= omicron < usize::MAX,
        ensures
            omicron == 2 ==> r is Err,
            r is Err ==> forall|u: Seq<Seq<Option<usize>>>| !completion(u, omicron as int),
            r is Err && omicron <= u32::MAX ==> forall|blocks: Set<Set<u32>>| !#[trigger] steiner_system(
                omicron as int,
                3,
                0,
                omicron - 1,
                blocks,
            ),
            match r {
                Ok(a) => a.wf() && a.table().len() == omicron && !(a.pointer.1 < a.pointer.0 < omicron)
                    && consistent(a.table()) && walk_filled(a.table()),
                Err(a) => a.wf() && a.table().len() == omicron && consistent(a.table()),
            },
            omicron % 2 == 1 && 3 <= omicron <= u32::MAX ==> (r matches Ok(a) ==> full(a.table()) && steiner_system(
                omicron as int,
                3,
                0,
                omicron - 1,
                table_triples(a.table()),
            )),
    {
        let mut arr = Self::new(omicron);
        proof {
            lemma_fresh_sound(arr.table());
            assert(placed(omicron as int, arr.pointer));
            assert(filled_upto(arr.table(), arr.pointer));
            lemma_fresh_misses_none(arr.table());
        }
        if omicron == 2 {
            proof {
                lemma_no_completion_even(2);
                lemma_no_system(2);
            }
            return Err(arr);
        }
        if arr.check(status_updates) {
            proof {
                if omicron % 2 == 1 && 3 <= omicron <= u32::MAX {
                    law_finished_search_is_steiner(arr.table());
                }
            }
            Ok(arr)
        } else {
            proof {
                if omicron <= u32::MAX {
                    lemma_no_system(omicron as int);
                }
            }
            Err(arr)
        }
    }

    /// Whether `omicron` elements split into triples that cover every pair once: what
    /// `test_quick` decides, and otherwise whether a search from a fresh table succeeds, which
    /// it does exactly where such a split exists.
    pub fn test(omicron: usize, status_updates: bool) -> (r: bool)
        requires
            omicron < usize::MAX,
        ensures
            quick_verdict(omicron as int, 3) matches Ok(b) ==> r == b,
            quick_verdict(omicron as int, 3) is Err && omicron <= u32::MAX ==> (r <==> exists|blocks: Set<Set<u32>>|
                #[trigger] steiner_system(omicron as int, 3, 0, omicron - 1, blocks)),
    {
        proof {
            let a = (omicron as int) % 6;
            let b = (omicron as int - 1) % 6;
            assert(a * b <= 25) by (nonlinear_arith)
                requires
                    0 <= a < 6,
                    0 <= b < 6,
            ;
            assert(quick_defined(omicron as int, 3, usize::MAX as int));
        }
        let cur = omicron.test_quick(3);
        if let Ok(ans) = cur {
            return ans;
        }
        let found = Self::generate_stupid(omicron, status_updates);
        match found {
            Ok(a) => {
                proof {
                    assert(omicron % 2 == 1 && omicron >= 3);
                    if omicron <= u32::MAX {
                        assert(steiner_system(omicron as int, 3, 0, omicron - 1, table_triples(a.table())));
                    }
                }
                true
            },
            Err(_) => {
                proof {
                    if omicron <= u32::MAX {
                        assert forall|blocks: Set<Set<u32>>| !#[trigger] steiner_system(omicron as int, 3, 0, omicron - 1, blocks) by {}
                    }
                }
                false
            },
        }
    }

    /// Clears the triple through a cell (the saved pointer's where none is given), if it holds
    /// one.
    pub fn unset(&mut self, pointer: Option<(usize, usize)>)
        requires
            cell(old(self).table(), old(self).target(pointer)) matches Some(e) ==> old(self).holds_cells(
                (e, old(self).target(pointer).1, old(self).target(pointer).0),
            ),
        ensures
            final(self).table() == (match cell(old(self).table(), old(self).target(pointer)) {
                Some(e) => with_triple(
                    old(self).table(),
                    descending((e, old(self).target(pointer).1, old(self).target(pointer).0)),
                    true,
                ),
                None => old(self).table(),
            }),
            final(self).pointer == old(self).pointer,
            final(self).mem == old(self).mem,
    {
        let e = match self.get(pointer) {
            Some(e) => e,
            None => return ,
        };
        let p = match pointer {
            Some(q) => q,
            None => self.pointer,
        };
        self.remove_triple((e, p.1, p.0));
    }
}

/// Clearing a triple just entered into empty cells gives the table back: `remove_triple`
/// undoes `set_triple`.
pub proof fn law_remove_undoes_set(t: Seq<Seq<Option<usize>>>, triple: (usize, usize, usize))
    requires
        table_wf(t),
        descending(triple).2 < descending(triple).1 < descending(triple).0 < t.len(),
        t[descending(triple).0 as int][descending(triple).1 as int] is None,
        t[descending(triple).0 as int][descending(triple).2 as int] is None,
        t[descending(triple).1 as int][descending(triple).2 as int] is None,
    ensures
        with_triple(with_triple(t, descending(triple), false), descending(triple), true) == t,
{
    let s = descending(triple);
    let u = with_triple(t, s, false);
    lemma_with_triple(t, s, false);
    lemma_with_triple(u, s, true);
    let v = with_triple(u, s, true);
    assert forall|i: int| 0 <= i < t.len() implies #[trigger] v[i] == t[i] by {
        assert forall|j: int| 0 <= j < t[i].len() implies v[i][j] == t[i][j] by {
            assert(t[i].len() == i);
        }
        assert(v[i] =~= t[i]);
    }
    assert(v =~= t);
}


impl TriplesArray {
    /// The table as text: a line per row with the row's number and its cells, aligned in
    /// columns, and a last line that marks the columns; or, where no cell is filled, the rows
    /// of blanks in brackets.
    pub fn to_table(&self) -> (r: String)
        requires
            renderable(self.table()),
        ensures
            r@ == table_text(self.table()),
    {
        proof {
            assert(self.table() =~= rows_of(self.arr@));
        }
        render(&self.arr)
    }
}


impl TriplesArray {
    /// The triple that a cell holds (the saved pointer's cell where none is given), as a set
    /// of its elements raised by `offset`, largest first.
    pub fn triple_set(&self, pointer: Option<(usize, usize)>, offset: usize) -> (r: String)
        requires
            cell(self.table(), self.target(pointer)) is Some,
            descending(
                (
                    cell(self.table(), self.target(pointer))->0,
                    self.target(pointer).0,
                    self.target(pointer).1,
                ),
            ).0 + offset <= usize::MAX,
        ensures
            r@ == set_text(
                descending(
                    (
                        cell(self.table(), self.target(pointer))->0,
                        self.target(pointer).0,
                        self.target(pointer).1,
                    ),
                ),
                offset as nat,
            ),
    {
        let triple = match self.get_triple(pointer) {
            Some(t) => t,
            None => {
                proof {
                    assert(false);
                }
                (0, 0, 0)
            },
        };
        proof {
            reveal_strlit("{");
            reveal_strlit(", ");
            reveal_strlit("}");
        }
        let mut s = String::new();
        s.append("{");
        push_decimal(&mut s, (triple.0 + offset) as u64);
        s.append(", ");
        push_decimal(&mut s, (triple.1 + offset) as u64);
        s.append(", ");
        push_decimal(&mut s, (triple.2 + offset) as u64);
        s.append("}");
        proof {
            assert(s@ =~= set_text(triple, offset as nat));
        }
        s
    }

    /// The table's triples, each as a set raised by `offset` on a line of its own, taken at
    /// the cell of its two smallest elements, row by row; an empty cell is listed as
    /// `Undefined`.
    pub fn to_subsets(&self, offset: usize) -> (r: String)
        requires
            offset_fits(self.table(), offset),
        ensures
            r@ == listing(self.table(), self.table().len() as nat, offset as nat),
    {
        proof {
            reveal_strlit("Undefined\n");
            reveal_strlit("\n");
        }
        let mut s = String::new();
        let mut i: usize = 1;
        while i < self.len()
            invariant
                1 <= i,
                i <= self.table().len() || (self.table().len() == 0 && i == 1),
                offset_fits(self.table(), offset),
                s@ == listing(self.table(), i as nat, offset as nat),
                "Undefined\n"@ == seq!['U', 'n', 'd', 'e', 'f', 'i', 'n', 'e', 'd', '\n'],
                "\n"@ == seq!['\n'],
            decreases self.table().len() - i,
        {
            let ghost row_start = s@;
            let mut ii: usize = 0;
            while ii < i
                invariant
                    0 <= ii <= i,
                    i < self.table().len(),
                    offset_fits(self.table(), offset),
                    s@ == row_start + row_listing(self.table(), i, ii as nat, offset as nat),
                    "Undefined\n"@ == seq!['U', 'n', 'd', 'e', 'f', 'i', 'n', 'e', 'd', '\n'],
                    "\n"@ == seq!['\n'],
                decreases i - ii,
            {
                let ghost head = s@;
                if self.get(Some((i, ii))).is_none() {
                    s.append("Undefined\n");
                } else if self.is_first_in_triple(Some((i, ii))) {
                    proof {
                        let t = self.table();
                        assert(t[i as int][ii as int] matches Some(e) && e + offset <= usize::MAX);
                    }
                    let line = self.triple_set(Some((i, ii)), offset);
                    s.append(line.as_str());
                    s.append("\n");
                }
                proof {
                    assert(s@ =~= head + cell_listing(self.table(), i, ii, offset as nat));
                }
                ii += 1;
            }
            proof {
                assert(s@ =~= listing(self.table(), (i + 1) as nat, offset as nat));
            }
            i += 1;
        }
        proof {
            if self.table().len() >= 1 {
                assert(i == self.table().len());
            } else {
                assert(listing(self.table(), 1, offset as nat) == Seq::<char>::empty());
                assert(listing(self.table(), 0, offset as nat) == Seq::<char>::empty());
            }
        }
        s
    }
}


impl TriplesArray {
    /// Reads back a table from its text (see `read_table`), with no triples remembered and the
    /// pointer at `(3, 1)`.
    pub fn from_string(string: &str) -> (r: TriplesArray)
        requires
            readable(string@),
            4 * string@.len() + 8 <= usize::MAX,
        ensures
            r.table() == read_table(string@),
            r.pointer == (3usize, 1usize),
            r.mem@ == Seq::<usize>::empty(),
    {
        let v = chars_of(string);
        let (lo, hi) = trim_range(&v, 0, v.len());
        proof {
            assert(v@.subrange(0, v@.len() as int) =~= v@);
        }
        let pieces = split_ranges(&v, lo, hi, '\n');
        let ghost lines = text_lines(string@);
        proof {
            assert(pieces_of(v@, pieces@) == split(trim(string@), '\n'));
            assert(lines.len() == pieces@.len() - 1);
            assert forall|i: int| 0 <= i < lines.len() implies lines[i] == v@.subrange(
                #[trigger] pieces@[i].0 as int,
                pieces@[i].1 as int,
            ) by {
                assert(lines[i] == pieces_of(v@, pieces@)[i]);
            }
        }
        let n = pieces.len() - 1;
        let (a0, b0) = pieces[0];
        let colon = find_char(&v, a0, b0, ':');
        proof {
            lemma_first_index_in(lines[0], ':');
            assert(v@.subrange(a0 as int, colon as int) =~= lines[0].take(first_index(lines[0], ':')));
        }
        let cs = 3 + byte_count(&v, a0, colon);
        let ghost table = read_table(string@);
        let mut arr: Vec<Vec<Option<usize>>> = Vec::new();
        arr.push(Vec::new());
        proof {
            assert(rows_of(arr@) =~= table.take(1));
        }
        let mut i: usize = 1;
        while i < n
            invariant
                1 <= i <= n,
                n == pieces@.len() - 1,
                n == lines.len(),
                v@ == string@,
                lines == text_lines(string@),
                table == read_table(string@),
                readable(string@),
                cs == cells_start(lines),
                cs + 4 <= usize::MAX,
                forall|i: int| 0 <= i < pieces@.len() ==> (#[trigger] pieces@[i]).0 <= pieces@[i].1 <= v@.len(),
                forall|i: int| 0 <= i < lines.len() ==> lines[i] == v@.subrange(
                    #[trigger] pieces@[i].0 as int,
                    pieces@[i].1 as int,
                ),
                rows_of(arr@) =~= table.take(i as int),
            decreases n - i,
        {
            let (a, b) = pieces[i];
            proof {
                assert(lines[i as int] == v@.subrange(a as int, b as int));
            }
            let k = char_at_byte(&v, a, b, cs);
            let cells = split_ranges(&v, k, b, ',');
            let ghost row = read_row(lines[i as int], cs as int);
            proof {
                assert(v@.subrange(k as int, b as int) =~= lines[i as int].skip(
                    at_byte(lines[i as int], cs as int)->0,
                ));
                assert(row.len() == cells@.len());
            }
            let mut col: Vec<Option<usize>> = Vec::new();
            let mut j: usize = 0;
            while j < cells.len()
                invariant
                    0 <= j <= cells@.len(),
                    row.len() == cells@.len(),
                    row == read_row(lines[i as int], cs as int),
                    pieces_of(v@, cells@) == split(v@.subrange(k as int, b as int), ','),
                    v@.subrange(k as int, b as int) == lines[i as int].skip(at_byte(lines[i as int], cs as int)->0),
                    forall|c: int| 0 <= c < cells@.len() ==> k <= (#[trigger] cells@[c]).0 <= cells@[c].1 <= b,
                    b <= v@.len(),
                    col@ =~= row.take(j as int),
                decreases cells@.len() - j,
            {
                let (x, y) = cells[j];
                let (x2, y2) = trim_range(&v, x, y);
                let e = parse_range(&v, x2, y2);
                proof {
                    assert(v@.subrange(x as int, y as int) == pieces_of(v@, cells@)[j as int]);
                    assert(e == row[j as int]);
                }
                col.push(e);
                j += 1;
            }
            proof {
                assert(col@ =~= row);
                assert(table[i as int] == row);
            }
            let ghost old_rows = rows_of(arr@);
            let ghost col_view = col@;
            arr.push(col);
            proof {
                assert(rows_of(arr@) =~= old_rows.push(col_view));
                assert(table.take(i + 1) =~= table.take(i as int).push(table[i as int]));
                assert(rows_of(arr@) =~= table.take(i + 1));
            }
            i += 1;
        }
        proof {
            assert(table.len() == n);
            assert(table.take(n as int) =~= table);
        }
        let r = TriplesArray { arr, mem: Vec::new(), pointer: (3, 1) };
        proof {
            assert(r.table() =~= rows_of(r.arr@));
        }
        r
    }
}

} // verus!
