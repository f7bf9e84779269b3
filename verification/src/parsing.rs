use vstd::prelude::*;

verus! {

// Reading text: white space, trimming, splitting at a separator, decimal numbers and the
// UTF-8 width of characters, each stated over sequences of characters and computed over
// index ranges of a vector of characters.

/// `c` has the Unicode White_Space property, which `char::is_whitespace` tests.
pub open spec fn is_white(c: char) -> bool {
    let u = c as u32;
    ||| 0x09 <= u <= 0x0D
    ||| u == 0x20
    ||| u == 0x85
    ||| u == 0xA0
    ||| u == 0x1680
    ||| 0x2000 <= u <= 0x200A
    ||| u == 0x2028
    ||| u == 0x2029
    ||| u == 0x202F
    ||| u == 0x205F
    ||| u == 0x3000
}

/// `s` without its leading white space.
pub open spec fn trim_start(s: Seq<char>) -> Seq<char>
    decreases s.len(),
{
    if s.len() > 0 && is_white(s[0]) {
        trim_start(s.skip(1))
    } else {
        s
    }
}

/// `s` without its trailing white space.
pub open spec fn trim_end(s: Seq<char>) -> Seq<char>
    decreases s.len(),
{
    if s.len() > 0 && is_white(s.last()) {
        trim_end(s.drop_last())
    } else {
        s
    }
}

/// `s` without its leading and trailing white space.
pub open spec fn trim(s: Seq<char>) -> Seq<char> {
    trim_end(trim_start(s))
}

/// The pieces of `s` between the occurrences of `sep`, in order: one more than there are
/// occurrences, empty pieces included.
pub open spec fn split(s: Seq<char>, sep: char) -> Seq<Seq<char>>
    decreases s.len(),
{
    if s.len() == 0 {
        seq![seq![]]
    } else {
        let p = split(s.drop_last(), sep);
        if s.last() == sep {
            p.push(seq![])
        } else {
            p.update(p.len() - 1, p.last().push(s.last()))
        }
    }
}

/// A decimal digit.
pub open spec fn is_digit(c: char) -> bool {
    '0' <= c <= '9'
}

/// The number that a string of decimal digits denotes.
pub open spec fn digits_value(d: Seq<char>) -> nat
    decreases d.len(),
{
    if d.len() == 0 {
        0
    } else {
        digits_value(d.drop_last()) * 10 + (d.last() as nat - '0' as nat) as nat
    }
}

/// `e` without a leading `+`.
pub open spec fn unsigned_part(e: Seq<char>) -> Seq<char> {
    if e.len() > 0 && e[0] == '+' {
        e.skip(1)
    } else {
        e
    }
}

/// Every character of `d` is a decimal digit.
pub open spec fn all_digits(d: Seq<char>) -> bool {
    forall|i: int| 0 <= i < d.len() ==> is_digit(#[trigger] d[i])
}

/// What `str::parse::<usize>` gives on `e`: the number, where `e` is an optional `+` and then
/// one or more decimal digits whose number fits in a `usize`; `None` otherwise.
pub open spec fn parse_usize(e: Seq<char>) -> Option<usize> {
    let d = unsigned_part(e);
    if d.len() > 0 && all_digits(d) && digits_value(d) <= usize::MAX {
        Some(digits_value(d) as usize)
    } else {
        None
    }
}

/// The number of bytes of `c` in UTF-8, as `char::len_utf8` gives it.
pub open spec fn char_width(c: char) -> nat {
    let u = c as u32;
    if u < 0x80 {
        1
    } else if u < 0x800 {
        2
    } else if u < 0x10000 {
        3
    } else {
        4
    }
}

/// The number of bytes of `s` in UTF-8.
pub open spec fn byte_len(s: Seq<char>) -> nat
    decreases s.len(),
{
    if s.len() == 0 {
        0
    } else {
        byte_len(s.drop_last()) + char_width(s.last())
    }
}

/// The index of the character at which byte `b` of `s` starts, `None` where `b` is past the
/// end or inside a character.
pub open spec fn at_byte(s: Seq<char>, b: int) -> Option<int>
    decreases s.len(),
{
    if b == 0 {
        Some(0)
    } else if s.len() == 0 || b < 0 {
        None
    } else {
        match at_byte(s.skip(1), b - char_width(s[0])) {
            Some(k) => Some(k + 1),
            None => None,
        }
    }
}

/// The index of the first `c` in `s`, or the length of `s` where there is none.
pub open spec fn first_index(s: Seq<char>, c: char) -> int
    decreases s.len(),
{
    if s.len() == 0 {
        0
    } else if s[0] == c {
        0
    } else {
        1 + first_index(s.skip(1), c)
    }
}

/// The text of each of the index ranges `r` of `v`.
pub open spec fn pieces_of(v: Seq<char>, r: Seq<(usize, usize)>) -> Seq<Seq<char>> {
    r.map_values(|p: (usize, usize)| v.subrange(p.0 as int, p.1 as int))
}

/// Tests `c` for white space.
pub fn white(c: char) -> (r: bool)
    ensures
        r == is_white(c),
{
    let u = c as u32;
    (0x09 <= u && u <= 0x0D) || u == 0x20 || u == 0x85 || u == 0xA0 || u == 0x1680 || (0x2000 <= u
        && u <= 0x200A) || u == 0x2028 || u == 0x2029 || u == 0x202F || u == 0x205F || u == 0x3000
}

/// The part of `v[lo..hi]` that trimming leaves, as a range.
pub fn trim_range(v: &Vec<char>, lo: usize, hi: usize) -> (r: (usize, usize))
    requires
        lo <= hi <= v@.len(),
    ensures
        lo <= r.0 <= r.1 <= hi,
        v@.subrange(r.0 as int, r.1 as int) == trim(v@.subrange(lo as int, hi as int)),
{
    let mut a = lo;
    while a < hi && white(v[a])
        invariant
            lo <= a <= hi <= v@.len(),
            trim_start(v@.subrange(lo as int, hi as int)) == trim_start(v@.subrange(a as int, hi as int)),
        decreases hi - a,
    {
        proof {
            assert(v@.subrange(a as int, hi as int).skip(1) =~= v@.subrange(a + 1, hi as int));
        }
        a += 1;
    }
    let mut b = hi;
    while b > a && white(v[b - 1])
        invariant
            lo <= a <= b <= hi <= v@.len(),
            trim_end(v@.subrange(a as int, hi as int)) == trim_end(v@.subrange(a as int, b as int)),
        decreases b - a,
    {
        proof {
            assert(v@.subrange(a as int, b as int).drop_last() =~= v@.subrange(a as int, b - 1));
        }
        b -= 1;
    }
    proof {
        assert(trim_start(v@.subrange(a as int, hi as int)) == v@.subrange(a as int, hi as int));
        assert(trim_end(v@.subrange(a as int, b as int)) == v@.subrange(a as int, b as int));
    }
    (a, b)
}

/// The pieces of `v[lo..hi]` between the occurrences of `sep`, as ranges.
pub fn split_ranges(v: &Vec<char>, lo: usize, hi: usize, sep: char) -> (r: Vec<(usize, usize)>)
    requires
        lo <= hi <= v@.len(),
    ensures
        r@.len() >= 1,
        forall|i: int| 0 <= i < r@.len() ==> lo <= (#[trigger] r@[i]).0 <= r@[i].1 <= hi,
        pieces_of(v@, r@) == split(v@.subrange(lo as int, hi as int), sep),
{
    let mut r: Vec<(usize, usize)> = Vec::new();
    let mut start = lo;
    let mut k = lo;
    proof {
        assert(pieces_of(v@, r@) =~= Seq::<Seq<char>>::empty());
        assert(v@.subrange(lo as int, lo as int) =~= Seq::<char>::empty());
    }
    while k < hi
        invariant
            lo <= start <= k <= hi <= v@.len(),
            forall|i: int| 0 <= i < r@.len() ==> lo <= (#[trigger] r@[i]).0 <= r@[i].1 <= start,
            pieces_of(v@, r@).push(v@.subrange(start as int, k as int)) == split(
                v@.subrange(lo as int, k as int),
                sep,
            ),
        decreases hi - k,
    {
        let ghost before = pieces_of(v@, r@).push(v@.subrange(start as int, k as int));
        let ghost r0 = r@;
        proof {
            assert(v@.subrange(lo as int, k + 1).drop_last() =~= v@.subrange(lo as int, k as int));
            assert(v@.subrange(lo as int, k + 1).last() == v@[k as int]);
        }
        if v[k] == sep {
            r.push((start, k));
            start = k + 1;
            proof {
                assert(pieces_of(v@, r@) =~= before);
                assert(v@.subrange(start as int, (k + 1) as int) =~= Seq::<char>::empty());
                assert(pieces_of(v@, r@).push(v@.subrange(start as int, (k + 1) as int)) =~= before.push(
                    seq![],
                ));
            }
        } else {
            proof {
                assert(v@.subrange(start as int, k + 1) =~= v@.subrange(start as int, k as int).push(
                    v@[k as int],
                ));
                assert(pieces_of(v@, r@).push(v@.subrange(start as int, (k + 1) as int)) =~= before.update(
                    before.len() - 1,
                    before.last().push(v@[k as int]),
                ));
            }
        }
        k += 1;
    }
    r.push((start, hi));
    proof {
        assert(pieces_of(v@, r@) =~= pieces_of(v@, r@.drop_last()).push(
            v@.subrange(start as int, hi as int),
        ));
    }
    r
}

/// The number of a prefix of a string of digits is at most that of the whole.
proof fn lemma_prefix_value(d: Seq<char>, j: int)
    requires
        0 <= j <= d.len(),
        all_digits(d),
    ensures
        digits_value(d.take(j)) <= digits_value(d),
    decreases d.len(),
{
    if j < d.len() {
        assert(d.drop_last().take(j) =~= d.take(j));
        lemma_prefix_value(d.drop_last(), j);
    } else {
        assert(d.take(j) =~= d);
    }
}

/// What `str::parse::<usize>` gives on `v[a..b]`.
pub fn parse_range(v: &Vec<char>, a: usize, b: usize) -> (r: Option<usize>)
    requires
        a <= b <= v@.len(),
    ensures
        r == parse_usize(v@.subrange(a as int, b as int)),
{
    let ghost e = v@.subrange(a as int, b as int);
    let mut s = a;
    if a < b && v[a] == '+' {
        s = a + 1;
    }
    let ghost d = v@.subrange(s as int, b as int);
    proof {
        assert(d =~= unsigned_part(e));
    }
    if s == b {
        return None;
    }
    let mut acc: usize = 0;
    let mut k = s;
    proof {
        assert(v@.subrange(s as int, s as int) =~= Seq::<char>::empty());
    }
    while k < b
        invariant
            a <= s <= k <= b <= v@.len(),
            d == v@.subrange(s as int, b as int),
            e == v@.subrange(a as int, b as int),
            d =~= unsigned_part(e),
            acc == digits_value(v@.subrange(s as int, k as int)),
            forall|i: int| s <= i < k ==> is_digit(#[trigger] v@[i]),
        decreases b - k,
    {
        let c = v[k];
        if !('0' <= c && c <= '9') {
            proof {
                assert(!is_digit(d[k - s]));
                assert(!all_digits(d));
                assert(parse_usize(e) is None);
            }
            return None;
        }
        let dig = (c as u32 - '0' as u32) as usize;
        proof {
            assert(v@.subrange(s as int, k + 1).drop_last() =~= v@.subrange(s as int, k as int));
            assert(v@.subrange(s as int, k + 1) =~= d.take(k + 1 - s));
        }
        if acc > (usize::MAX - dig) / 10 {
            proof {
                assert(acc * 10 + dig > usize::MAX) by (nonlinear_arith)
                    requires
                        acc > (usize::MAX - dig) / 10,
                        dig <= 9,
                ;
                if all_digits(d) {
                    lemma_prefix_value(d, k + 1 - s);
                    assert(digits_value(d) > usize::MAX);
                }
                assert(parse_usize(e) is None);
            }
            return None;
        }
        proof {
            assert(acc * 10 + dig <= usize::MAX) by (nonlinear_arith)
                requires
                    acc <= (usize::MAX - dig) / 10,
                    dig <= 9,
            ;
        }
        acc = acc * 10 + dig;
        k += 1;
    }
    proof {
        assert(v@.subrange(s as int, k as int) =~= d);
        assert forall|i: int| 0 <= i < d.len() implies is_digit(#[trigger] d[i]) by {
            assert(d[i] == v@[s + i]);
        }
        assert(all_digits(d));
    }
    Some(acc)
}

/// The number of bytes of `c` in UTF-8.
pub fn width(c: char) -> (r: usize)
    ensures
        r == char_width(c),
        1 <= r <= 4,
{
    let u = c as u32;
    if u < 0x80 {
        1
    } else if u < 0x800 {
        2
    } else if u < 0x10000 {
        3
    } else {
        4
    }
}

/// The number of bytes of `v[a..b]` in UTF-8.
pub fn byte_count(v: &Vec<char>, a: usize, b: usize) -> (r: usize)
    requires
        a <= b <= v@.len(),
        4 * (b - a) <= usize::MAX,
    ensures
        r == byte_len(v@.subrange(a as int, b as int)),
        r <= 4 * (b - a),
{
    let mut acc: usize = 0;
    let mut k = a;
    proof {
        assert(v@.subrange(a as int, a as int) =~= Seq::<char>::empty());
    }
    while k < b
        invariant
            a <= k <= b <= v@.len(),
            4 * (b - a) <= usize::MAX,
            acc == byte_len(v@.subrange(a as int, k as int)),
            acc <= 4 * (k - a),
        decreases b - k,
    {
        proof {
            assert(v@.subrange(a as int, k + 1).drop_last() =~= v@.subrange(a as int, k as int));
        }
        acc = acc + width(v[k]);
        k += 1;
    }
    acc
}

/// The index of the first `c` in `v[a..b]`, counted from the start of `v`; `b` where there
/// is none.
pub fn find_char(v: &Vec<char>, a: usize, b: usize, c: char) -> (r: usize)
    requires
        a <= b <= v@.len(),
    ensures
        a <= r <= b,
        r - a == first_index(v@.subrange(a as int, b as int), c),
{
    let mut k = a;
    while k < b && v[k] != c
        invariant
            a <= k <= b <= v@.len(),
            first_index(v@.subrange(a as int, b as int), c) == (k - a) + first_index(
                v@.subrange(k as int, b as int),
                c,
            ),
        decreases b - k,
    {
        proof {
            assert(v@.subrange(k as int, b as int).skip(1) =~= v@.subrange(k + 1, b as int));
        }
        k += 1;
    }
    k
}

/// The index, counted from the start of `v`, of the character of `v[a..b]` at which its byte
/// `at` starts.
pub fn char_at_byte(v: &Vec<char>, a: usize, b: usize, at: usize) -> (r: usize)
    requires
        a <= b <= v@.len(),
        at_byte(v@.subrange(a as int, b as int), at as int) is Some,
        at + 4 <= usize::MAX,
    ensures
        a <= r <= b,
        r - a == at_byte(v@.subrange(a as int, b as int), at as int)->0,
{
    let mut acc: usize = 0;
    let mut k = a;
    while acc < at
        invariant
            a <= k <= b <= v@.len(),
            acc <= at,
            at + 4 <= usize::MAX,
            at_byte(v@.subrange(k as int, b as int), at - acc) is Some,
            at_byte(v@.subrange(a as int, b as int), at as int)->0 == (k - a) + at_byte(
                v@.subrange(k as int, b as int),
                at - acc,
            )->0,
        decreases at - acc,
    {
        proof {
            assert(v@.subrange(k as int, b as int).skip(1) =~= v@.subrange(k + 1, b as int));
        }
        let w = width(v[k]);
        acc = acc + w;
        k += 1;
    }
    k
}

/// Splitting always gives at least one piece.
pub proof fn lemma_split_len(s: Seq<char>, sep: char)
    ensures
        split(s, sep).len() >= 1,
    decreases s.len(),
{
    if s.len() > 0 {
        lemma_split_len(s.drop_last(), sep);
    }
}

/// Appending text without the separator extends the last piece.
pub proof fn lemma_split_plain(x: Seq<char>, y: Seq<char>, sep: char)
    requires
        forall|i: int| 0 <= i < y.len() ==> y[i] != sep,
    ensures
        split(x + y, sep) == split(x, sep).update(
            split(x, sep).len() - 1,
            split(x, sep).last() + y,
        ),
    decreases y.len(),
{
    lemma_split_len(x, sep);
    let p = split(x, sep);
    if y.len() == 0 {
        assert(x + y =~= x);
        assert(p.last() + y =~= p.last());
        assert(p.update(p.len() - 1, p.last() + y) =~= p);
    } else {
        let y0 = y.drop_last();
        lemma_split_plain(x, y0, sep);
        assert((x + y).drop_last() =~= x + y0);
        assert((x + y).last() == y.last());
        assert(y.last() != sep);
        let q = split(x + y0, sep);
        lemma_split_len(x + y0, sep);
        assert(q.len() == p.len());
        assert(q.last() == p.last() + y0);
        assert(split(x + y, sep) == q.update(q.len() - 1, q.last().push(y.last())));
        assert((p.last() + y0).push(y.last()) =~= p.last() + y);
        assert(split(x + y, sep) =~= p.update(p.len() - 1, p.last() + y));
    }
}

/// Text without the separator is one piece.
pub proof fn lemma_split_single(y: Seq<char>, sep: char)
    requires
        forall|i: int| 0 <= i < y.len() ==> y[i] != sep,
    ensures
        split(y, sep) == seq![y],
{
    lemma_split_plain(Seq::empty(), y, sep);
    assert(Seq::<char>::empty() + y =~= y);
    assert(split(Seq::<char>::empty(), sep) =~= seq![seq![]]);
    assert(Seq::<char>::empty() + y =~= y);
    assert(seq![Seq::<char>::empty()].update(0, Seq::<char>::empty() + y) =~= seq![y]);
}

/// A separator at the end starts an empty piece.
pub proof fn lemma_split_sep(x: Seq<char>, sep: char)
    ensures
        split(x.push(sep), sep) == split(x, sep).push(seq![]),
{
    assert(x.push(sep).drop_last() =~= x);
}

/// White space before a text that starts with none is what trimming the start removes.
pub proof fn lemma_trim_start_white(x: Seq<char>, e: Seq<char>)
    requires
        forall|i: int| 0 <= i < x.len() ==> is_white(#[trigger] x[i]),
        e.len() > 0 ==> !is_white(e[0]),
    ensures
        trim_start(x + e) == e,
    decreases x.len(),
{
    if x.len() == 0 {
        assert(x + e =~= e);
    } else {
        assert((x + e).skip(1) =~= x.skip(1) + e);
        lemma_trim_start_white(x.skip(1), e);
    }
}

/// Trimming white space around a text that neither starts nor ends with white space gives
/// the text.
pub proof fn lemma_trim_white(x: Seq<char>, e: Seq<char>)
    requires
        forall|i: int| 0 <= i < x.len() ==> is_white(#[trigger] x[i]),
        e.len() > 0,
        !is_white(e[0]),
        !is_white(e.last()),
    ensures
        trim(x + e) == e,
{
    lemma_trim_start_white(x, e);
}

/// Within ASCII characters, byte `k` starts character `k`.
pub proof fn lemma_at_byte_ascii(s: Seq<char>, k: int)
    requires
        0 <= k <= s.len(),
        forall|j: int| 0 <= j < k ==> char_width(#[trigger] s[j]) == 1,
    ensures
        at_byte(s, k) == Some(k),
    decreases k,
{
    if k > 0 {
        assert forall|j: int| 0 <= j < k - 1 implies char_width(#[trigger] s.skip(1)[j]) == 1 by {
            assert(s.skip(1)[j] == s[j + 1]);
        }
        lemma_at_byte_ascii(s.skip(1), k - 1);
    }
}

} // verus!
