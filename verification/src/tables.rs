use vstd::prelude::*;
use vstd::string::*;
use crate::text::{decimal, push_decimal, push_repeat, decimal_width, repeat, lemma_decimal_len_u64};

verus! {

/// A table given as its rows.
pub open spec fn rows_of(arr: Seq<Vec<Option<usize>>>) -> Seq<Seq<Option<usize>>> {
    arr.map_values(|row: Vec<Option<usize>>| row@)
}

/// The larger of two optional entries, an absent entry being the least.
pub open spec fn opt_max(a: Option<usize>, b: Option<usize>) -> Option<usize> {
    match (a, b) {
        (Some(x), Some(y)) => if x >= y { Some(x) } else { Some(y) },
        (Some(x), None) => Some(x),
        (None, _) => b,
    }
}

/// The largest entry of a row, `None` where it holds none.
pub open spec fn row_largest(r: Seq<Option<usize>>) -> Option<usize>
    decreases r.len(),
{
    if r.len() == 0 {
        None
    } else {
        opt_max(row_largest(r.drop_last()), r.last())
    }
}

/// The largest entry of a table, `None` where it holds none.
pub open spec fn largest(t: Seq<Seq<Option<usize>>>) -> Option<usize>
    decreases t.len(),
{
    if t.len() == 0 {
        None
    } else {
        opt_max(largest(t.drop_last()), row_largest(t.last()))
    }
}

/// An entry as it is written in a table: its decimal numeral, or `_` where it is absent.
pub open spec fn entry_text(o: Option<usize>) -> Seq<char> {
    match o {
        Some(e) => decimal(e as nat),
        None => seq!['_'],
    }
}

/// `s`, right-aligned in a field of width `w` by spaces.
pub open spec fn padded(s: Seq<char>, w: nat) -> Seq<char> {
    repeat(' ', (w - s.len()) as nat) + s
}

/// The first `k` cells of row `i`, each right-aligned in width `w`, and each but the row's
/// last followed by `, `.
pub open spec fn cells_text(r: Seq<Option<usize>>, i: int, w: nat, k: nat) -> Seq<char>
    decreases k,
{
    if k == 0 {
        seq![]
    } else {
        cells_text(r, i, w, (k - 1) as nat) + padded(entry_text(r[k - 1]), w) + if k - 1 < i - 1 {
            seq![',', ' ']
        } else {
            seq![]
        }
    }
}

/// The line of row `i`: its number right-aligned in width `iw`, `:  `, its cells, a newline.
pub open spec fn row_line(r: Seq<Option<usize>>, i: nat, iw: nat, ew: nat) -> Seq<char> {
    padded(decimal(i), iw) + seq![':', ' ', ' '] + cells_text(r, i as int, ew, i) + seq!['\n']
}

/// The lines of the first `k` rows.
pub open spec fn lines(t: Seq<Seq<Option<usize>>>, k: nat, iw: nat, ew: nat) -> Seq<char>
    decreases k,
{
    if k == 0 {
        seq![]
    } else {
        lines(t, (k - 1) as nat, iw, ew) + row_line(t[k - 1], (k - 1) as nat, iw, ew)
    }
}

/// The column marks `1 ..< k`, each after dots that fill its field of width `ew + 2`.
pub open spec fn marks(k: nat, ew: nat) -> Seq<char>
    decreases k,
{
    if k <= 1 {
        seq![]
    } else {
        marks((k - 1) as nat, ew) + repeat('.', (ew + 2 - decimal((k - 1) as nat).len()) as nat)
            + decimal((k - 1) as nat)
    }
}

/// The last line of a table on `n` rows: dots up to the first column, `0`, then the other
/// column marks.
pub open spec fn footer(n: nat, iw: nat, ew: nat) -> Seq<char> {
    repeat('.', iw + 2 + ew) + seq!['0'] + marks((n - 1) as nat, ew)
}

/// `k` blanks separated by `, `.
pub open spec fn blanks(k: nat) -> Seq<char>
    decreases k,
{
    if k == 0 {
        seq![]
    } else if k == 1 {
        seq!['_']
    } else {
        blanks((k - 1) as nat) + seq![',', ' ', '_']
    }
}

/// A row of `k` blanks after its opening bracket.
pub open spec fn open_row(k: nat) -> Seq<char> {
    seq!['['] + blanks(k)
}

/// The first `k` rows of an empty table, each after its opening bracket and followed by a
/// line break and a space.
pub open spec fn open_rows(t: Seq<Seq<Option<usize>>>, k: nat) -> Seq<char>
    decreases k,
{
    if k == 0 {
        seq![]
    } else {
        open_rows(t, (k - 1) as nat) + open_row(t[k - 1].len()) + seq!['\n', ' ']
    }
}

/// The text of a table with no entry: its debug text with each `None` written `_` and each
/// `],` between two rows made a line break, so that only the last row keeps its closing
/// bracket.
pub open spec fn blank_text(t: Seq<Seq<Option<usize>>>) -> Seq<char> {
    if t.len() == 0 {
        seq!['[', ']']
    } else {
        seq!['['] + open_rows(t, (t.len() - 1) as nat) + open_row(t.last().len()) + seq![']', ']']
    }
}

/// A table as text. One with no entry is its `blank_text`. Otherwise each row
/// `i` is a line of its number and its cells `0 ..< i`, the numbers right-aligned to the widest
/// row number and the cells to the widest entry, and a last line marks the columns.
pub open spec fn table_text(t: Seq<Seq<Option<usize>>>) -> Seq<char> {
    match largest(t) {
        None => blank_text(t),
        Some(m) => {
            let iw = decimal(t.len()).len();
            let ew = decimal(m as nat).len();
            lines(t, t.len(), iw, ew) + footer(t.len(), iw, ew)
        },
    }
}

/// Row `i` holds at least the cells `0 ..< i`, and where an entry is there, the widest column
/// mark is no wider than the widest entry.
pub open spec fn renderable(t: Seq<Seq<Option<usize>>>) -> bool {
    &&& forall|i: int| 0 <= i < t.len() ==> #[trigger] t[i].len() >= i
    &&& t.len() <= u64::MAX
    &&& (largest(t) matches Some(m) ==> (t.len() >= 3 ==> decimal((t.len() - 2) as nat).len()
        <= decimal(m as nat).len()))
}

/// A larger number has at least as many digits.
pub proof fn lemma_decimal_mono(a: nat, b: nat)
    requires
        a <= b,
    ensures
        decimal(a).len() <= decimal(b).len(),
    decreases b,
{
    if b >= 10 {
        if a >= 10 {
            lemma_decimal_mono(a / 10, b / 10);
        } else {
            assert(decimal(a).len() == 1);
        }
    }
}

/// Every entry of a row is at most its largest entry.
proof fn lemma_row_largest(r: Seq<Option<usize>>, j: int)
    requires
        0 <= j < r.len(),
        r[j] is Some,
    ensures
        row_largest(r) is Some,
        r[j]->0 <= row_largest(r)->0,
    decreases r.len(),
{
    if j < r.len() - 1 {
        lemma_row_largest(r.drop_last(), j);
    }
}

/// Every entry of a table is at most its largest entry.
proof fn lemma_largest(t: Seq<Seq<Option<usize>>>, i: int, j: int)
    requires
        0 <= i < t.len(),
        0 <= j < t[i].len(),
        t[i][j] is Some,
    ensures
        largest(t) is Some,
        t[i][j]->0 <= largest(t)->0,
    decreases t.len(),
{
    if i < t.len() - 1 {
        lemma_largest(t.drop_last(), i, j);
    } else {
        lemma_row_largest(t[i], j);
    }
}

/// The larger of two optional entries.
fn opt_max_exec(a: Option<usize>, b: Option<usize>) -> (r: Option<usize>)
    ensures
        r == opt_max(a, b),
{
    match (a, b) {
        (Some(x), Some(y)) => if x >= y {
            Some(x)
        } else {
            Some(y)
        },
        (Some(x), None) => Some(x),
        (None, _) => b,
    }
}

/// The largest entry of a table.
pub fn largest_entry(arr: &Vec<Vec<Option<usize>>>) -> (r: Option<usize>)
    ensures
        r == largest(rows_of(arr@)),
{
    let ghost t = rows_of(arr@);
    let mut m: Option<usize> = None;
    let mut i: usize = 0;
    while i < arr.len()
        invariant
            0 <= i <= arr.len(),
            t == rows_of(arr@),
            m == largest(t.take(i as int)),
        decreases arr.len() - i,
    {
        let row = &arr[i];
        let mut rm: Option<usize> = None;
        let mut j: usize = 0;
        while j < row.len()
            invariant
                0 <= j <= row.len(),
                rm == row_largest(row@.take(j as int)),
            decreases row.len() - j,
        {
            rm = opt_max_exec(rm, row[j]);
            proof {
                assert(row@.take(j + 1).drop_last() =~= row@.take(j as int));
            }
            j += 1;
        }
        proof {
            assert(row@.take(row.len() as int) =~= row@);
            assert(t.take(i + 1).drop_last() =~= t.take(i as int));
            assert(t.take(i + 1).last() == row@);
        }
        m = opt_max_exec(m, rm);
        i += 1;
    }
    proof {
        assert(t.take(arr.len() as int) =~= t);
    }
    m
}

/// The text of a table with no entry.
fn render_blank(arr: &Vec<Vec<Option<usize>>>) -> (r: String)
    ensures
        r@ == blank_text(rows_of(arr@)),
{
    let ghost t = rows_of(arr@);
    proof {
        reveal_strlit("[");
        reveal_strlit("]");
        reveal_strlit("]]");
        reveal_strlit("_");
        reveal_strlit(", ");
        reveal_strlit("\n ");
    }
    let mut s = String::new();
    s.append("[");
    let mut i: usize = 0;
    while i < arr.len()
        invariant
            0 <= i <= arr.len(),
            t == rows_of(arr@),
            i == 0 ==> s@ == seq!['['],
            i >= 1 ==> s@ == seq!['['] + open_rows(t, (i - 1) as nat) + open_row(t[i - 1].len()),
            "["@ == seq!['['],
            "_"@ == seq!['_'],
            ", "@ == seq![',', ' '],
            "\n "@ == seq!['\n', ' '],
        decreases arr.len() - i,
    {
        if i > 0 {
            s.append("\n ");
            proof {
                assert(s@ =~= seq!['['] + open_rows(t, i as nat));
            }
        } else {
            proof {
                assert(s@ =~= seq!['['] + open_rows(t, 0));
            }
        }
        let ghost head = s@;
        s.append("[");
        let row = &arr[i];
        let mut j: usize = 0;
        while j < row.len()
            invariant
                0 <= j <= row.len(),
                s@ == head + seq!['['] + blanks(j as nat),
                "_"@ == seq!['_'],
                ", "@ == seq![',', ' '],
            decreases row.len() - j,
        {
            if j > 0 {
                s.append(", ");
            }
            s.append("_");
            proof {
                assert(s@ =~= head + seq!['['] + blanks((j + 1) as nat));
            }
            j += 1;
        }
        proof {
            assert(t[i as int] == row@);
            assert(s@ =~= seq!['['] + open_rows(t, i as nat) + open_row(t[i as int].len()));
        }
        i += 1;
    }
    if arr.len() > 0 {
        s.append("]]");
    } else {
        s.append("]");
    }
    proof {
        if arr.len() > 0 {
            assert(t.last() == t[arr.len() - 1]);
        }
        assert(s@ =~= blank_text(t));
    }
    s
}

/// Appends the cells `0 ..< i` of row `i`, as `cells_text` writes them.
fn push_cells(s: &mut String, row: &Vec<Option<usize>>, i: usize, ew: usize, Ghost(m): Ghost<usize>)
    requires
        row@.len() >= i,
        ew == decimal(m as nat).len(),
        ew <= 20,
        forall|j: int| 0 <= j < i ==> (#[trigger] row@[j] matches Some(e) ==> e <= m),
    ensures
        final(s)@ == old(s)@ + cells_text(row@, i as int, ew as nat, i as nat),
{
    proof {
        reveal_strlit(" ");
        reveal_strlit("_");
        reveal_strlit(", ");
    }
    let ghost start = s@;
    let mut k: usize = 0;
    while k < i
        invariant
            0 <= k <= i,
            row@.len() >= i,
            ew == decimal(m as nat).len(),
            ew <= 20,
            forall|j: int| 0 <= j < i ==> (#[trigger] row@[j] matches Some(e) ==> e <= m),
            s@ == start + cells_text(row@, i as int, ew as nat, k as nat),
            " "@ == seq![' '],
            "_"@ == seq!['_'],
            ", "@ == seq![',', ' '],
        decreases i - k,
    {
        let ghost head = s@;
        match row[k] {
            None => {
                push_repeat(s, " ", ew - 1);
                s.append("_");
            },
            Some(e) => {
                let w = decimal_width(e as u64);
                proof {
                    lemma_decimal_mono(e as nat, m as nat);
                }
                push_repeat(s, " ", ew - w);
                push_decimal(s, e as u64);
            },
        }
        proof {
            assert(s@ =~= head + padded(entry_text(row@[k as int]), ew as nat));
        }
        if k + 1 < i {
            s.append(", ");
        }
        proof {
            assert(s@ =~= start + cells_text(row@, i as int, ew as nat, (k + 1) as nat));
        }
        k += 1;
    }
}

/// A table as text, as `table_text` writes it.
pub fn render(arr: &Vec<Vec<Option<usize>>>) -> (r: String)
    requires
        renderable(rows_of(arr@)),
    ensures
        r@ == table_text(rows_of(arr@)),
{
    let ghost t = rows_of(arr@);
    let largest_opt = largest_entry(arr);
    let mx = match largest_opt {
        None => {
            return render_blank(arr);
        },
        Some(mx) => mx,
    };
    proof {
        reveal_strlit(" ");
        reveal_strlit(":  ");
        reveal_strlit("\n");
        reveal_strlit(".");
        reveal_strlit("0");
    }
    let n = arr.len();
    let ew = decimal_width(mx as u64);
    let iw = decimal_width(n as u64);
    let mut s = String::new();
    let mut i: usize = 0;
    while i < n
        invariant
            0 <= i <= n,
            n == arr.len(),
            t == rows_of(arr@),
            renderable(t),
            largest(t) == Some(mx),
            ew == decimal(mx as nat).len(),
            iw == decimal(n as nat).len(),
            1 <= ew <= 20,
            s@ == lines(t, i as nat, iw as nat, ew as nat),
            " "@ == seq![' '],
            ":  "@ == seq![':', ' ', ' '],
            "\n"@ == seq!['\n'],
        decreases n - i,
    {
        let ghost head = s@;
        let w = decimal_width(i as u64);
        proof {
            lemma_decimal_mono(i as nat, n as nat);
        }
        push_repeat(&mut s, " ", iw - w);
        push_decimal(&mut s, i as u64);
        s.append(":  ");
        let row = &arr[i];
        proof {
            assert(t[i as int] == row@);
            assert(row@.len() >= i);
            assert forall|j: int| 0 <= j < i implies (#[trigger] row@[j] matches Some(e) ==> e <= mx) by {
                if row@[j] is Some {
                    lemma_largest(t, i as int, j);
                }
            }
        }
        push_cells(&mut s, row, i, ew, Ghost(mx));
        s.append("\n");
        proof {
            assert(s@ =~= head + row_line(t[i as int], i as nat, iw as nat, ew as nat));
            assert(s@ =~= lines(t, (i + 1) as nat, iw as nat, ew as nat));
        }
        i += 1;
    }
    let ghost body = s@;
    proof {
        lemma_decimal_len_u64(n as u64);
    }
    push_repeat(&mut s, ".", iw + 2 + ew);
    s.append("0");
    assert(n >= 1) by {
        if n == 0 {
            assert(largest(t) is None);
        }
    }
    let ghost head = s@;
    let mut e: usize = 1;
    while e + 1 < n
        invariant
            1 <= e,
            e + 1 <= n || n == 1,
            n >= 1,
            e <= n,
            n == arr.len(),
            t == rows_of(arr@),
            renderable(t),
            largest(t) == Some(mx),
            ew == decimal(mx as nat).len(),
            1 <= ew <= 20,
            s@ == head + marks(e as nat, ew as nat),
            "."@ == seq!['.'],
        decreases n - e,
    {
        let w = decimal_width(e as u64);
        proof {
            lemma_decimal_mono(e as nat, (n - 2) as nat);
        }
        push_repeat(&mut s, ".", ew + 2 - w);
        push_decimal(&mut s, e as u64);
        proof {
            assert(s@ =~= head + marks((e + 1) as nat, ew as nat));
        }
        e += 1;
    }
    proof {
        if n >= 2 {
            assert(e == n - 1);
        } else {
            assert(marks(e as nat, ew as nat) == marks((n - 1) as nat, ew as nat));
        }
        assert(s@ =~= body + footer(n as nat, iw as nat, ew as nat));
    }
    s
}

} // verus!
