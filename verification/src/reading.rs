use vstd::prelude::*;
use crate::text::{decimal, digit_char, repeat};
use crate::parsing::{
    all_digits, char_width, digits_value, is_digit, is_white, lemma_split_len, lemma_split_plain,
    lemma_split_sep, lemma_split_single, lemma_trim_white, parse_usize, split, trim, unsigned_part,
    at_byte, lemma_at_byte_ascii,
};
use crate::triples_array::{cells_start, read_row, read_table, readable, table_wf, text_lines};
use crate::text::{lemma_decimal_len_bound, pow10};
use crate::parsing::{byte_len, first_index, lemma_trim_start_white, trim_end, trim_start};
use crate::tables::{
    cells_text, entry_text, footer, largest, lemma_decimal_mono, lines, marks, padded, row_line,
    table_text,
};

verus! {

// Reading back what the library writes: numbers from their numerals, and tables from their
// text.

/// A decimal digit is one byte, no white space, and neither a line break, a comma nor a sign.
pub proof fn lemma_digit_char(c: char)
    requires
        is_digit(c),
    ensures
        !is_white(c),
        char_width(c) == 1,
        c != '\n',
        c != ',',
        c != '+',
{
}

/// The numeral of `n` is made of decimal digits and denotes `n`.
pub proof fn lemma_decimal_digits(n: nat)
    ensures
        decimal(n).len() >= 1,
        all_digits(decimal(n)),
        digits_value(decimal(n)) == n,
    decreases n,
{
    if n < 10 {
        assert(is_digit(digit_char(n as int)));
        assert(decimal(n).drop_last() =~= Seq::<char>::empty());
        assert(digit_char(n as int) as nat - '0' as nat == n);
        assert(digits_value(decimal(n)) == digits_value(Seq::<char>::empty()) * 10 + n);
    } else {
        lemma_decimal_digits(n / 10);
        let d = decimal(n);
        assert(d.drop_last() =~= decimal(n / 10));
        assert(is_digit(digit_char((n % 10) as int)));
        assert(d.last() == digit_char((n % 10) as int));
        assert(digit_char((n % 10) as int) as nat - '0' as nat == n % 10);
        assert(digits_value(d) == n / 10 * 10 + n % 10);
        assert forall|i: int| 0 <= i < d.len() implies is_digit(#[trigger] d[i]) by {
            if i < d.len() - 1 {
                assert(d[i] == decimal(n / 10)[i]);
            }
        }
    }
}

/// Reading a number's numeral gives the number.
pub proof fn lemma_parse_decimal(e: usize)
    ensures
        parse_usize(decimal(e as nat)) == Some(e),
{
    lemma_decimal_digits(e as nat);
    let d = decimal(e as nat);
    lemma_digit_char(d[0]);
    assert(unsigned_part(d) == d);
}

/// Reading an entry's text gives the entry.
pub proof fn lemma_parse_entry(o: Option<usize>)
    ensures
        parse_usize(entry_text(o)) == o,
{
    match o {
        Some(e) => lemma_parse_decimal(e),
        None => {
            let t = entry_text(o);
            assert(unsigned_part(t) == t);
            assert(!is_digit(t[0]));
            assert(!all_digits(t));
        },
    }
}

/// A character that the lines of a table's text are made of: a digit, a space, a blank, a
/// comma or a colon. Each is one byte and none is a line break.
pub open spec fn line_char(c: char) -> bool {
    is_digit(c) || c == ' ' || c == '_' || c == ',' || c == ':'
}

/// Every character of `s` is a `line_char`.
pub open spec fn line_chars(s: Seq<char>) -> bool {
    forall|j: int| 0 <= j < s.len() ==> line_char(#[trigger] s[j])
}

/// A `line_char` is one byte and no line break.
pub proof fn lemma_line_char(c: char)
    requires
        line_char(c),
    ensures
        char_width(c) == 1,
        c != '\n',
{
}

/// `c`, `k` times, is `k` characters, each `c`.
pub proof fn lemma_repeat(c: char, k: nat)
    ensures
        repeat(c, k).len() == k,
        forall|j: int| 0 <= j < k ==> #[trigger] repeat(c, k)[j] == c,
    decreases k,
{
    if k > 0 {
        lemma_repeat(c, (k - 1) as nat);
        assert forall|j: int| 0 <= j < k implies #[trigger] repeat(c, k)[j] == c by {
            if j < k - 1 {
                assert(repeat(c, k)[j] == repeat(c, (k - 1) as nat)[j]);
            }
        }
    }
}

/// An entry's text is one or more digits, or a blank.
pub proof fn lemma_entry_text(o: Option<usize>)
    ensures
        entry_text(o).len() >= 1,
        forall|j: int| 0 <= j < entry_text(o).len() ==> (is_digit(#[trigger] entry_text(o)[j]) || entry_text(o)[j] == '_'),
{
    if let Some(e) = o {
        lemma_decimal_digits(e as nat);
    }
}

/// The cells of a row are written in `line_char`s, without a line break.
pub proof fn lemma_cells_chars(r: Seq<Option<usize>>, i: int, w: nat, k: nat)
    requires
        k <= r.len(),
    ensures
        line_chars(cells_text(r, i, w, k)),
    decreases k,
{
    if k > 0 {
        lemma_cells_chars(r, i, w, (k - 1) as nat);
        let e = entry_text(r[k - 1]);
        lemma_entry_text(r[k - 1]);
        lemma_repeat(' ', (w - e.len()) as nat);
        let q = padded(e, w);
        assert(line_chars(q)) by {
            assert forall|j: int| 0 <= j < q.len() implies line_char(#[trigger] q[j]) by {
                let pad = repeat(' ', (w - e.len()) as nat);
                if j >= pad.len() {
                    assert(q[j] == e[j - pad.len()]);
                }
            }
        }
        let sep: Seq<char> = if k - 1 < i - 1 { seq![',', ' '] } else { seq![] };
        let prev = cells_text(r, i, w, (k - 1) as nat);
        let all = cells_text(r, i, w, k);
        assert(all == prev + q + sep);
        assert forall|j: int| 0 <= j < all.len() implies line_char(#[trigger] all[j]) by {
            if j < prev.len() {
                assert(all[j] == prev[j]);
            } else if j < prev.len() + q.len() {
                assert(all[j] == q[j - prev.len()]);
            } else {
                assert(all[j] == sep[j - prev.len() - q.len()]);
            }
        }
    }
}

/// The column marks are dots and digits, and end in a digit where there are any.
pub proof fn lemma_marks(k: nat, ew: nat)
    ensures
        forall|j: int| 0 <= j < marks(k, ew).len() ==> (marks(k, ew)[j] == '.' || is_digit(#[trigger] marks(k, ew)[j])),
        marks(k, ew).len() > 0 ==> is_digit(marks(k, ew).last()),
    decreases k,
{
    if k > 1 {
        lemma_marks((k - 1) as nat, ew);
        let prev = marks((k - 1) as nat, ew);
        let dots = repeat('.', (ew + 2 - decimal((k - 1) as nat).len()) as nat);
        let d = decimal((k - 1) as nat);
        lemma_repeat('.', (ew + 2 - decimal((k - 1) as nat).len()) as nat);
        lemma_decimal_digits((k - 1) as nat);
        let all = marks(k, ew);
        assert(all == prev + dots + d);
        assert forall|j: int| 0 <= j < all.len() implies (all[j] == '.' || is_digit(#[trigger] all[j])) by {
            if j < prev.len() {
                assert(all[j] == prev[j]);
            } else if j < prev.len() + dots.len() {
                assert(all[j] == dots[j - prev.len()]);
            } else {
                assert(all[j] == d[j - prev.len() - dots.len()]);
            }
        }
        assert(all.last() == d.last());
    }
}

/// What leads cell `j` of a row once its line is split at commas: `k` spaces before the
/// first cell, the space after the comma before each other.
pub open spec fn lead(k: nat, j: int) -> Seq<char> {
    if j == 0 {
        repeat(' ', k)
    } else {
        seq![' ']
    }
}

/// Piece `j` of a row's cells split at commas.
pub open spec fn cell_piece(r: Seq<Option<usize>>, w: nat, k: nat, j: int) -> Seq<char> {
    lead(k, j) + padded(entry_text(r[j]), w)
}

/// The padded text of an entry holds no comma.
proof fn lemma_padded_no_comma(o: Option<usize>, w: nat)
    ensures
        forall|j: int| 0 <= j < padded(entry_text(o), w).len() ==> #[trigger] padded(entry_text(o), w)[j] != ',',
{
    let e = entry_text(o);
    lemma_entry_text(o);
    let pad = repeat(' ', (w - e.len()) as nat);
    lemma_repeat(' ', (w - e.len()) as nat);
    assert forall|j: int| 0 <= j < padded(e, w).len() implies #[trigger] padded(e, w)[j] != ',' by {
        if j >= pad.len() {
            assert(padded(e, w)[j] == e[j - pad.len()]);
        } else {
            assert(padded(e, w)[j] == pad[j]);
        }
    }
}

/// Splitting `k` spaces and the first `m` cells of row `i` at commas gives the cells' pieces,
/// and, while cells are still to come, the space that leads the next one.
proof fn lemma_split_cells(r: Seq<Option<usize>>, i: int, w: nat, k: nat, m: nat)
    requires
        1 <= i <= r.len(),
        m <= i,
    ensures
        split(repeat(' ', k) + cells_text(r, i, w, m), ',') == Seq::new(m, |j: int| cell_piece(r, w, k, j)) + if m < i {
            seq![lead(k, m as int)]
        } else {
            Seq::<Seq<char>>::empty()
        },
    decreases m,
{
    lemma_repeat(' ', k);
    if m == 0 {
        assert(repeat(' ', k) + cells_text(r, i, w, 0) =~= repeat(' ', k));
        lemma_split_single(repeat(' ', k), ',');
        assert(Seq::new(0, |j: int| cell_piece(r, w, k, j)) + seq![lead(k, 0)] =~= seq![repeat(' ', k)]);
    } else {
        lemma_split_cells(r, i, w, k, (m - 1) as nat);
        let s0 = repeat(' ', k) + cells_text(r, i, w, (m - 1) as nat);
        let q = padded(entry_text(r[m - 1]), w);
        lemma_padded_no_comma(r[m - 1], w);
        lemma_split_plain(s0, q, ',');
        let p0 = split(s0, ',');
        let pieces = Seq::new(m, |j: int| cell_piece(r, w, k, j));
        assert(p0.update(p0.len() - 1, p0.last() + q) =~= pieces);
        if m < i {
            let x = s0 + q;
            lemma_split_sep(x, ',');
            lemma_split_single(seq![' '], ',');
            lemma_split_plain(x.push(','), seq![' '], ',');
            assert(split(x.push(','), ',').last() + seq![' '] =~= seq![' ']);
            assert(split(x.push(','), ',').update(split(x.push(','), ',').len() - 1, seq![' ']) =~= pieces.push(seq![' ']));
            assert(repeat(' ', k) + cells_text(r, i, w, m) =~= x.push(',') + seq![' ']);
            assert(pieces.push(seq![' ']) =~= pieces + seq![lead(k, m as int)]);
        } else {
            assert(repeat(' ', k) + cells_text(r, i, w, m) =~= s0 + q);
            assert(pieces + Seq::<Seq<char>>::empty() =~= pieces);
        }
    }
}

/// Trimming a cell's piece leaves the entry's text.
proof fn lemma_trim_piece(r: Seq<Option<usize>>, w: nat, k: nat, j: int)
    requires
        0 <= j < r.len(),
    ensures
        trim(cell_piece(r, w, k, j)) == entry_text(r[j]),
{
    let e = entry_text(r[j]);
    lemma_entry_text(r[j]);
    let pad = repeat(' ', (w - e.len()) as nat);
    lemma_repeat(' ', (w - e.len()) as nat);
    lemma_repeat(' ', k);
    let x = lead(k, j) + pad;
    assert forall|c: int| 0 <= c < x.len() implies is_white(#[trigger] x[c]) by {
        if c < lead(k, j).len() {
            assert(x[c] == lead(k, j)[c]);
        } else {
            assert(x[c] == pad[c - lead(k, j).len()]);
        }
    }
    assert(is_digit(e[0]) || e[0] == '_');
    assert(is_digit(e.last()) || e.last() == '_');
    assert(cell_piece(r, w, k, j) =~= x + e);
    lemma_trim_white(x, e);
}

/// Line `i` of a table's text, without its line break.
pub open spec fn row_text(r: Seq<Option<usize>>, i: nat, iw: nat, ew: nat) -> Seq<char> {
    padded(decimal(i), iw) + seq![':', ' ', ' '] + cells_text(r, i as int, ew, i)
}

/// A row number right-aligned in a field at least as wide is that wide, and written in
/// spaces and digits.
proof fn lemma_padded_number(i: nat, iw: nat)
    requires
        decimal(i).len() <= iw,
    ensures
        padded(decimal(i), iw).len() == iw,
        line_chars(padded(decimal(i), iw)),
{
    let d = decimal(i);
    lemma_decimal_digits(i);
    let pad = repeat(' ', (iw - d.len()) as nat);
    lemma_repeat(' ', (iw - d.len()) as nat);
    let p = padded(d, iw);
    assert forall|j: int| 0 <= j < p.len() implies line_char(#[trigger] p[j]) by {
        if j < pad.len() {
            assert(p[j] == pad[j]);
        } else {
            assert(p[j] == d[j - pad.len()]);
        }
    }
}

/// A row's line is written in `line_char`s.
proof fn lemma_row_text_chars(r: Seq<Option<usize>>, i: nat, iw: nat, ew: nat)
    requires
        r.len() >= i,
        decimal(i).len() <= iw,
    ensures
        line_chars(row_text(r, i, iw, ew)),
        row_text(r, i, iw, ew).len() >= iw + 3,
{
    lemma_padded_number(i, iw);
    lemma_cells_chars(r, i as int, ew, i);
    let p = padded(decimal(i), iw);
    let c = cells_text(r, i as int, ew, i);
    let m: Seq<char> = seq![':', ' ', ' '];
    let all = row_text(r, i, iw, ew);
    assert(all == p + m + c);
    assert forall|j: int| 0 <= j < all.len() implies line_char(#[trigger] all[j]) by {
        if j < p.len() {
            assert(all[j] == p[j]);
        } else if j < p.len() + 3 {
            assert(all[j] == m[j - p.len()]);
        } else {
            assert(all[j] == c[j - p.len() - 3]);
        }
    }
}

/// Reading line `i >= 1` of a table's text, whose cells start at byte `4`, gives row `i`
/// back, where row numbers take at most three digits.
proof fn lemma_read_row(r: Seq<Option<usize>>, i: nat, iw: nat, ew: nat)
    requires
        1 <= i,
        r.len() == i,
        1 <= iw <= 3,
        decimal(i).len() <= iw,
    ensures
        at_byte(row_text(r, i, iw, ew), 4) == Some(4int),
        read_row(row_text(r, i, iw, ew), 4) == r,
{
    let line = row_text(r, i, iw, ew);
    lemma_row_text_chars(r, i, iw, ew);
    assert forall|j: int| 0 <= j < 4 implies char_width(#[trigger] line[j]) == 1 by {
        lemma_line_char(line[j]);
    }
    lemma_at_byte_ascii(line, 4);
    lemma_padded_number(i, iw);
    let p = padded(decimal(i), iw);
    let m: Seq<char> = seq![':', ' ', ' '];
    let c = cells_text(r, i as int, ew, i);
    lemma_repeat(' ', (iw - 1) as nat);
    assert(line.skip(4) =~= repeat(' ', (iw - 1) as nat) + c) by {
        assert(line == p + m + c);
        assert forall|j: int| 0 <= j < line.skip(4).len() implies line.skip(4)[j] == (repeat(' ', (iw - 1) as nat) + c)[j] by {
            if j < iw - 1 {
                assert(line[4 + j] == m[4 + j - iw]);
            } else {
                assert(line[4 + j] == c[j - (iw - 1)]);
            }
        }
    }
    lemma_split_cells(r, i as int, ew, (iw - 1) as nat, i);
    let pieces = Seq::new(i, |j: int| cell_piece(r, ew, (iw - 1) as nat, j));
    assert(split(line.skip(4), ',') =~= pieces);
    assert forall|j: int| 0 <= j < i implies #[trigger] parse_usize(trim(pieces[j])) == r[j] by {
        lemma_trim_piece(r, ew, (iw - 1) as nat, j);
        lemma_parse_entry(r[j]);
    }
    assert(read_row(line, 4) =~= r);
}

/// Line `j` of a table's text as reading finds it: the first line without the spaces that
/// align its number, since trimming the text removes them.
pub open spec fn line_of(t: Seq<Seq<Option<usize>>>, j: int, iw: nat, ew: nat) -> Seq<char> {
    if j == 0 {
        row_text(t[0], 0, iw, ew).skip(iw - 1)
    } else {
        row_text(t[j], j as nat, iw, ew)
    }
}

/// The first `k` lines of a table's text, from the first row's number on, split at line
/// breaks, are the rows' lines and an empty piece after the last break.
proof fn lemma_split_lines(t: Seq<Seq<Option<usize>>>, k: nat, iw: nat, ew: nat)
    requires
        1 <= k <= t.len(),
        forall|i: int| 0 <= i < t.len() ==> #[trigger] t[i].len() == i,
        iw == decimal(t.len()).len(),
    ensures
        lines(t, k, iw, ew).len() >= iw,
        lines(t, k, iw, ew).take(iw as int) == padded(decimal(0), iw),
        split(lines(t, k, iw, ew).skip(iw - 1), '\n') == Seq::new(k, |j: int| line_of(t, j, iw, ew)).push(
            seq![],
        ),
    decreases k,
{
    let rt = row_text(t[k - 1], (k - 1) as nat, iw, ew);
    lemma_decimal_mono((k - 1) as nat, t.len());
    lemma_row_text_chars(t[k - 1], (k - 1) as nat, iw, ew);
    lemma_padded_number((k - 1) as nat, iw);
    assert(row_line(t[k - 1], (k - 1) as nat, iw, ew) =~= rt.push('\n'));
    let all = lines(t, k, iw, ew);
    let line = line_of(t, k - 1, iw, ew);
    assert forall|j: int| 0 <= j < line.len() implies #[trigger] line[j] != '\n' by {
        if k == 1 {
            assert(line[j] == rt[j + iw - 1]);
            lemma_line_char(rt[j + iw - 1]);
        } else {
            lemma_line_char(rt[j]);
        }
    }
    if k == 1 {
        assert(all =~= rt.push('\n'));
        assert(all.take(iw as int) =~= padded(decimal(0), iw));
        assert(all.skip(iw - 1) =~= line.push('\n'));
        lemma_split_sep(line, '\n');
        lemma_split_single(line, '\n');
        assert(Seq::new(1, |j: int| line_of(t, j, iw, ew)) =~= seq![line]);
    } else {
        lemma_split_lines(t, (k - 1) as nat, iw, ew);
        let prev = lines(t, (k - 1) as nat, iw, ew);
        assert(all == prev + rt.push('\n'));
        assert(all.take(iw as int) =~= prev.take(iw as int));
        let x = prev.skip(iw - 1);
        assert(all.skip(iw - 1) =~= (x + rt).push('\n'));
        lemma_split_plain(x, rt, '\n');
        lemma_split_sep(x + rt, '\n');
        let before = Seq::new((k - 1) as nat, |j: int| line_of(t, j, iw, ew));
        assert(split(x, '\n').last() + rt =~= rt);
        assert(split(x, '\n').update(split(x, '\n').len() - 1, rt) =~= Seq::new(k, |j: int| line_of(t, j, iw, ew)));
    }
}

/// The footer is one line that ends in a digit.
proof fn lemma_footer(n: nat, iw: nat, ew: nat)
    ensures
        footer(n, iw, ew).len() >= 1,
        forall|j: int| 0 <= j < footer(n, iw, ew).len() ==> #[trigger] footer(n, iw, ew)[j] != '\n',
        !is_white(footer(n, iw, ew).last()),
{
    let dots = repeat('.', iw + 2 + ew);
    lemma_repeat('.', iw + 2 + ew);
    let mk = marks((n - 1) as nat, ew);
    lemma_marks((n - 1) as nat, ew);
    let f = footer(n, iw, ew);
    assert(f == dots + seq!['0'] + mk);
    assert forall|j: int| 0 <= j < f.len() implies #[trigger] f[j] != '\n' by {
        if j < dots.len() {
            assert(f[j] == dots[j]);
        } else if j == dots.len() {
            assert(f[j] == '0');
        } else {
            assert(f[j] == mk[j - dots.len() - 1]);
        }
    }
    if mk.len() > 0 {
        assert(f.last() == mk.last());
        lemma_digit_char(mk.last());
    } else {
        assert(f.last() == '0');
    }
}

/// The lines of a table's text, as reading splits it, are the rows' lines.
proof fn lemma_text_lines(t: Seq<Seq<Option<usize>>>)
    requires
        forall|i: int| 0 <= i < t.len() ==> #[trigger] t[i].len() == i,
        largest(t) is Some,
        t.len() >= 1,
    ensures
        text_lines(table_text(t)) == Seq::new(
            t.len(),
            |j: int| line_of(t, j, decimal(t.len()).len(), decimal(largest(t)->0 as nat).len()),
        ),
{
    let n = t.len();
    let iw = decimal(n).len();
    let ew = decimal(largest(t)->0 as nat).len();
    lemma_decimal_digits(n);
    lemma_split_lines(t, n, iw, ew);
    lemma_footer(n, iw, ew);
    let l = lines(t, n, iw, ew);
    let f = footer(n, iw, ew);
    let text = table_text(t);
    assert(text == l + f);
    let x = text.take(iw - 1);
    let e = text.skip(iw - 1);
    lemma_repeat(' ', (iw - 1) as nat);
    assert(decimal(0) =~= seq!['0']);
    assert(padded(decimal(0), iw) =~= repeat(' ', (iw - 1) as nat) + seq!['0']);
    assert forall|c: int| 0 <= c < x.len() implies is_white(#[trigger] x[c]) by {
        assert(x[c] == l.take(iw as int)[c]);
        assert(x[c] == repeat(' ', (iw - 1) as nat)[c]);
    }
    assert(e[0] == l.take(iw as int)[iw - 1]);
    assert(e[0] == '0');
    assert(text =~= x + e);
    lemma_trim_start_white(x, e);
    assert(e =~= l.skip(iw - 1) + f);
    assert(e.last() == f.last());
    assert(trim_end(e) == e);
    assert(trim(text) == e);
    lemma_split_plain(l.skip(iw - 1), f, '\n');
    let rows = Seq::new(n, |j: int| line_of(t, j, iw, ew));
    assert(rows.push(seq![]).update(n as int, Seq::<char>::empty() + f) =~= rows.push(f));
    assert(rows.push(f).drop_last() =~= rows);
}

/// A table's text reads back as the table: where each row `i` holds the cells `0 ..< i`,
/// some cell is filled, and there are fewer than a thousand rows, the text that `to_table`
/// writes is one that `from_string` accepts, and the table that it reads is the one written.
pub proof fn law_table_text_reads_back(t: Seq<Seq<Option<usize>>>)
    requires
        forall|i: int| 0 <= i < t.len() ==> #[trigger] t[i].len() == i,
        largest(t) is Some,
        t.len() < 1000,
    ensures
        readable(table_text(t)),
        read_table(table_text(t)) == t,
{
    let n = t.len();
    assert(n >= 1) by {
        if n == 0 {
            assert(largest(t) is None);
        }
    }
    let iw = decimal(n).len();
    let ew = decimal(largest(t)->0 as nat).len();
    assert(pow10(3) == 1000) by {
        reveal_with_fuel(pow10, 4);
    }
    lemma_decimal_len_bound(n, 3);
    lemma_text_lines(t);
    let text = table_text(t);
    let ls = text_lines(text);
    let first: Seq<char> = seq!['0', ':', ' ', ' '];
    assert(ls[0] == line_of(t, 0, iw, ew));
    assert(decimal(0) =~= seq!['0']);
    lemma_padded_number(0, iw);
    lemma_repeat(' ', (iw - 1) as nat);
    assert(padded(decimal(0), iw) =~= repeat(' ', (iw - 1) as nat) + seq!['0']);
    assert(cells_text(t[0], 0, ew, 0) =~= Seq::<char>::empty());
    assert(ls[0] =~= first);
    assert(ls[0][1] == ':');
    assert(first_index(first, ':') == 1) by {
        assert(first.skip(1)[0] == ':');
        assert(first_index(first.skip(1), ':') == 0);
    }
    assert(first.take(1) =~= seq!['0']);
    assert(byte_len(seq!['0']) == 1) by {
        assert(seq!['0'].drop_last() =~= Seq::<char>::empty());
        assert(byte_len(Seq::<char>::empty()) == 0);
        assert(char_width('0') == 1);
        assert(seq!['0'].last() == '0');
    }
    assert(cells_start(ls) == 4);
    assert forall|i: int| 1 <= i < ls.len() implies (at_byte(#[trigger] ls[i], cells_start(ls)) is Some
        && read_row(ls[i], 4) == t[i]) by {
        lemma_decimal_mono(i as nat, n);
        lemma_read_row(t[i], i as nat, iw, ew);
    }
    assert(readable(text));
    let read = read_table(text);
    assert forall|i: int| 0 <= i < n implies #[trigger] read[i] == t[i] by {
        if i == 0 {
            assert(t[0] =~= Seq::<Option<usize>>::empty());
        } else {
            assert(read[i] == read_row(ls[i], cells_start(ls)));
        }
    }
    assert(read =~= t);
}

} // verus!
