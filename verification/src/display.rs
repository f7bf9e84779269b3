use vstd::prelude::*;
use vstd::string::*;
use std::collections::BTreeSet;
use crate::batches::{set_elements, Batches};
use crate::binary_collections::{strictly_sorted, BinaryCollection, BinaryResizableCollection};
use crate::fx_sets::batch_sets;
use crate::text::{decimal, push_decimal};

verus! {

// The text of a collection of batches: each batch in braces, its elements in increasing
// order and separated by ", ", one batch per line, the batches in lexicographic order.

/// `a` comes before `b` in lexicographic order.
pub open spec fn lex_less(a: Seq<u32>, b: Seq<u32>) -> bool
    decreases a.len(),
{
    if a.len() == 0 {
        b.len() > 0
    } else if b.len() == 0 {
        false
    } else if a[0] < b[0] {
        true
    } else if a[0] > b[0] {
        false
    } else {
        lex_less(a.drop_first(), b.drop_first())
    }
}

/// The elements of `s`, as decimal numerals separated by `", "`.
pub open spec fn elems_text(s: Seq<u32>) -> Seq<char>
    decreases s.len(),
{
    if s.len() == 0 {
        seq![]
    } else if s.len() == 1 {
        decimal(s[0] as nat)
    } else {
        elems_text(s.drop_last()) + seq![',', ' '] + decimal(s.last() as nat)
    }
}

/// A batch's line: its elements in braces.
pub open spec fn batch_text(s: Seq<u32>) -> Seq<char> {
    seq!['{'] + elems_text(s) + seq!['}']
}

/// The lines of `rows`, separated by line breaks.
pub open spec fn lines_text(rows: Seq<Seq<u32>>) -> Seq<char>
    decreases rows.len(),
{
    if rows.len() == 0 {
        seq![]
    } else if rows.len() == 1 {
        batch_text(rows[0])
    } else {
        lines_text(rows.drop_last()) + seq!['\n'] + batch_text(rows.last())
    }
}

/// A sequence of elements that increases strictly.
pub open spec fn increasing(s: Seq<u32>) -> bool {
    forall|i: int, j: int| 0 <= i < j < s.len() ==> s[i] < s[j]
}

/// No sequence comes before itself.
proof fn lemma_lex_irreflexive(a: Seq<u32>)
    ensures
        !lex_less(a, a),
    decreases a.len(),
{
    if a.len() > 0 {
        lemma_lex_irreflexive(a.drop_first());
    }
}

/// Of two different sequences, one comes before the other.
proof fn lemma_lex_total(a: Seq<u32>, b: Seq<u32>)
    requires
        a != b,
    ensures
        lex_less(a, b) || lex_less(b, a),
    decreases a.len(),
{
    if a.len() > 0 && b.len() > 0 && a[0] == b[0] {
        if a.drop_first() == b.drop_first() {
            assert(a =~= seq![a[0]] + a.drop_first());
            assert(b =~= seq![b[0]] + b.drop_first());
        }
        lemma_lex_total(a.drop_first(), b.drop_first());
    }
    if a.len() == 0 && b.len() == 0 {
        assert(a =~= b);
    }
}

/// Lexicographic order is transitive.
proof fn lemma_lex_transitive(a: Seq<u32>, b: Seq<u32>, c: Seq<u32>)
    requires
        lex_less(a, b),
        lex_less(b, c),
    ensures
        lex_less(a, c),
    decreases a.len(),
{
    if a.len() > 0 && b.len() > 0 && c.len() > 0 && a[0] == b[0] && b[0] == c[0] {
        lemma_lex_transitive(a.drop_first(), b.drop_first(), c.drop_first());
    }
}

/// Whether `a` comes before `b` in lexicographic order.
fn lex_less_exec(a: &Vec<u32>, b: &Vec<u32>) -> (r: bool)
    ensures
        r == lex_less(a@, b@),
{
    let mut i: usize = 0;
    proof {
        assert(a@.skip(0) =~= a@);
        assert(b@.skip(0) =~= b@);
    }
    while i < a.len() && i < b.len()
        invariant
            0 <= i <= a.len(),
            0 <= i <= b.len(),
            lex_less(a@, b@) == lex_less(a@.skip(i as int), b@.skip(i as int)),
        decreases a.len() - i,
    {
        if a[i] < b[i] {
            return true;
        }
        if a[i] > b[i] {
            return false;
        }
        proof {
            assert(a@.skip(i as int).drop_first() =~= a@.skip(i + 1));
            assert(b@.skip(i as int).drop_first() =~= b@.skip(i + 1));
        }
        i += 1;
    }
    i < b.len()
}

/// The elements of a batch in increasing order.
fn sorted_elements(set: &BTreeSet<u32>) -> (v: Vec<u32>)
    ensures
        increasing(v@),
        v@.to_set() == set@,
{
    let elems = set_elements(set);
    let mut out: Vec<u32> = Vec::new();
    let mut k: usize = 0;
    proof {
        assert(out.items() =~= Seq::<int>::empty());
    }
    while k < elems.len()
        invariant
            0 <= k <= elems.len(),
            strictly_sorted(out.items()),
            forall|x: u32| #[trigger] out@.contains(x) <==> elems@.take(k as int).contains(x),
        decreases elems.len() - k,
    {
        let ghost before = out@;
        let ghost before_items = out.items();
        let _ = out.b_insert_keep(elems[k]);
        proof {
            assert(before_items == before.map_values(|e: u32| e as int));
            assert(out.items().to_set() == before_items.to_set().insert(elems@[k as int] as int));
            assert forall|x: u32| #[trigger] out@.contains(x) <==> elems@.take(k + 1).contains(x) by {
                assert(out.items().contains(x as int) <==> out.items().to_set().contains(x as int));
                let om = out.items();
                assert(out@.contains(x) ==> om.contains(x as int)) by {
                    if out@.contains(x) {
                        let j = choose|j: int| 0 <= j < out@.len() && #[trigger] out@[j] == x;
                        assert(om[j] == x as int);
                    }
                }
                assert(om.contains(x as int) ==> out@.contains(x)) by {
                    if om.contains(x as int) {
                        let j = choose|j: int| 0 <= j < om.len() && #[trigger] om[j] == x as int;
                        assert(out@[j] == x);
                    }
                }
                let bm = before.map_values(|e: u32| e as int);
                assert(before.contains(x) <==> bm.contains(x as int)) by {
                    if before.contains(x) {
                        let j = choose|j: int| 0 <= j < before.len() && #[trigger] before[j] == x;
                        assert(bm[j] == x as int);
                    }
                    if bm.contains(x as int) {
                        let j = choose|j: int| 0 <= j < bm.len() && #[trigger] bm[j] == x as int;
                        assert(before[j] == x);
                    }
                }
                assert(elems@.take(k + 1) =~= elems@.take(k as int).push(elems@[k as int]));
                let t1 = elems@.take(k + 1);
                let t0 = elems@.take(k as int);
                assert(t1[k as int] == elems@[k as int]);
                assert(om.contains(x as int) <==> om.to_set().contains(x as int));
                assert(bm.contains(x as int) <==> bm.to_set().contains(x as int));
                if t1.contains(x) {
                    let j = choose|j: int| 0 <= j < t1.len() && #[trigger] t1[j] == x;
                    if j < k {
                        assert(t0[j] == x);
                    }
                }
                if t0.contains(x) {
                    let j = choose|j: int| 0 <= j < t0.len() && #[trigger] t0[j] == x;
                    assert(t1[j] == x);
                }
            }
        }
        k += 1;
    }
    proof {
        assert(elems@.take(k as int) =~= elems@);
        assert forall|i: int, j: int| 0 <= i < j < out@.len() implies out@[i] < out@[j] by {
            assert(out.items()[i] < out.items()[j]);
        }
        assert(out@.to_set() =~= set@) by {
            assert forall|x: u32| out@.to_set().contains(x) <==> set@.contains(x) by {
                assert(elems@.to_set().contains(x) <==> elems@.contains(x));
            }
        }
    }
    out
}

/// Appends a batch's line.
fn push_batch(s: &mut String, row: &Vec<u32>)
    ensures
        final(s)@ == old(s)@ + batch_text(row@),
{
    proof {
        reveal_strlit("{");
        reveal_strlit("}");
        reveal_strlit(", ");
    }
    s.append("{");
    let ghost start = s@;
    let mut k: usize = 0;
    while k < row.len()
        invariant
            0 <= k <= row.len(),
            s@ == start + elems_text(row@.take(k as int)),
            ", "@ == seq![',', ' '],
        decreases row.len() - k,
    {
        if k > 0 {
            s.append(", ");
        }
        push_decimal(s, row[k] as u64);
        proof {
            assert(row@.take(k + 1).drop_last() =~= row@.take(k as int));
            if k == 0 {
                assert(row@.take(0) =~= Seq::<u32>::empty());
            }
            assert(s@ =~= start + elems_text(row@.take(k + 1)));
        }
        k += 1;
    }
    s.append("}");
    proof {
        assert(row@.take(k as int) =~= row@);
        assert(s@ =~= old(s)@ + batch_text(row@));
    }
}

impl Batches {
    /// The batches as text: one line per batch, each batch's elements in increasing order
    /// in braces and separated by `", "`, the batches in lexicographic order.
    pub fn to_string(&self) -> (r: String)
        ensures
            exists|rows: Seq<Seq<u32>>| {
                &&& forall|i: int, j: int| 0 <= i < j < rows.len() ==> lex_less(#[trigger] rows[i], #[trigger] rows[j])
                &&& forall|i: int| 0 <= i < rows.len() ==> increasing(#[trigger] rows[i])
                &&& forall|i: int| 0 <= i < rows.len() ==> self.blocks().contains(#[trigger] rows[i].to_set())
                &&& forall|b: Set<u32>| #[trigger] self.blocks().contains(b) ==> exists|i: int| 0 <= i < rows.len() && #[trigger] rows[i].to_set() == b
                &&& r@ == lines_text(rows)
            },
    {
        let all = self.sets.to_vec();
        let mut rows: Vec<Vec<u32>> = Vec::new();
        let mut k: usize = 0;
        while k < all.len()
            invariant
                0 <= k <= all.len(),
                forall|i: int| 0 <= i < all.len() ==> self.blocks().contains(#[trigger] all[i]@),
                forall|i: int, j: int| 0 <= i < j < all.len() ==> all[i]@ != all[j]@,
                forall|i: int, j: int| 0 <= i < j < rows.len() ==> lex_less(#[trigger] rows@[i]@, #[trigger] rows@[j]@),
                forall|i: int| 0 <= i < rows.len() ==> increasing(#[trigger] rows@[i]@),
                forall|i: int| 0 <= i < rows.len() ==> exists|u: int| 0 <= u < k && #[trigger] rows@[i]@.to_set() == all[u]@,
                forall|u: int| #![trigger all[u]] 0 <= u < k ==> exists|i: int| 0 <= i < rows.len() && #[trigger] rows@[i]@.to_set() == all[u]@,
            decreases all.len() - k,
        {
            let row = sorted_elements(&all[k]);
            let mut p: usize = 0;
            while p < rows.len() && lex_less_exec(&rows[p], &row)
                invariant
                    0 <= p <= rows.len(),
                    forall|i: int| 0 <= i < p ==> lex_less(#[trigger] rows@[i]@, row@),
                decreases rows.len() - p,
            {
                p += 1;
            }
            proof {
                if p < rows.len() {
                    assert(!lex_less(rows@[p as int]@, row@));
                    assert(rows@[p as int]@ != row@) by {
                        let u = choose|u: int| 0 <= u < k && #[trigger] rows@[p as int]@.to_set() == all[u]@;
                        if rows@[p as int]@ == row@ {
                            assert(all[u]@ != all[k as int]@);
                        }
                    }
                    lemma_lex_total(rows@[p as int]@, row@);
                    assert forall|j: int| p <= j < rows.len() implies lex_less(row@, #[trigger] rows@[j]@) by {
                        if j > p {
                            lemma_lex_transitive(row@, rows@[p as int]@, rows@[j]@);
                        }
                    }
                }
            }
            let ghost before = rows@;
            rows.insert(p, row);
            proof {
                assert forall|i: int, j: int| 0 <= i < j < rows.len() implies lex_less(#[trigger] rows@[i]@, #[trigger] rows@[j]@) by {
                    if i < p && j == p {
                    } else if i == p {
                        assert(rows@[j] == before[j - 1]);
                    } else if j < p {
                        assert(rows@[i] == before[i] && rows@[j] == before[j]);
                    } else if i < p {
                        assert(rows@[i] == before[i] && rows@[j] == before[j - 1]);
                        assert(lex_less(before[i]@, row@));
                        lemma_lex_transitive(before[i]@, row@, before[j - 1]@);
                    } else {
                        assert(rows@[i] == before[i - 1] && rows@[j] == before[j - 1]);
                    }
                }
                assert forall|i: int| 0 <= i < rows.len() implies increasing(#[trigger] rows@[i]@) by {
                    if i < p {
                        assert(rows@[i] == before[i]);
                    } else if i > p {
                        assert(rows@[i] == before[i - 1]);
                    }
                }
                assert forall|i: int| 0 <= i < rows.len() implies exists|u: int| 0 <= u < k + 1 && #[trigger] rows@[i]@.to_set() == all[u]@ by {
                    if i < p {
                        assert(rows@[i] == before[i]);
                        let u = choose|u: int| 0 <= u < k && #[trigger] before[i]@.to_set() == all[u]@;
                    } else if i > p {
                        assert(rows@[i] == before[i - 1]);
                        let u = choose|u: int| 0 <= u < k && #[trigger] before[i - 1]@.to_set() == all[u]@;
                    } else {
                        assert(rows@[i]@.to_set() == all[k as int]@);
                    }
                }
                assert forall|u: int| #![trigger all[u]] 0 <= u < k + 1 implies exists|i: int| 0 <= i < rows.len() && #[trigger] rows@[i]@.to_set() == all[u]@ by {
                    if u < k {
                        let i = choose|i: int| 0 <= i < before.len() && #[trigger] before[i]@.to_set() == all[u]@;
                        if i < p {
                            assert(rows@[i] == before[i]);
                        } else {
                            assert(rows@[i + 1] == before[i]);
                        }
                    } else {
                        assert(rows@[p as int]@.to_set() == all[u]@);
                    }
                }
            }
            k += 1;
        }
        let mut out = String::new();
        let mut i: usize = 0;
        proof {
            reveal_strlit("\n");
        }
        while i < rows.len()
            invariant
                0 <= i <= rows.len(),
                out@ == lines_text(rows@.take(i as int).map_values(|v: Vec<u32>| v@)),
                "\n"@ == seq!['\n'],
            decreases rows.len() - i,
        {
            if i > 0 {
                out.append("\n");
            }
            push_batch(&mut out, &rows[i]);
            proof {
                let prev = rows@.take(i as int).map_values(|v: Vec<u32>| v@);
                let next = rows@.take(i + 1).map_values(|v: Vec<u32>| v@);
                assert(next.drop_last() =~= prev);
                if i == 0 {
                    assert(prev =~= Seq::<Seq<u32>>::empty());
                }
                assert(out@ =~= lines_text(next));
            }
            i += 1;
        }
        let ghost views = rows@.map_values(|v: Vec<u32>| v@);
        proof {
            assert(rows@.take(i as int) =~= rows@);
            assert forall|i: int, j: int| 0 <= i < j < views.len() implies lex_less(#[trigger] views[i], #[trigger] views[j]) by {
                assert(lex_less(rows@[i]@, rows@[j]@));
            }
            assert forall|i: int| 0 <= i < views.len() implies increasing(#[trigger] views[i]) by {
                assert(increasing(rows@[i]@));
            }
            assert forall|i: int| 0 <= i < views.len() implies self.blocks().contains(#[trigger] views[i].to_set()) by {
                let u = choose|u: int| 0 <= u < all.len() && #[trigger] rows@[i]@.to_set() == all[u]@;
            }
            assert forall|b: Set<u32>| #[trigger] self.blocks().contains(b) implies exists|i: int| 0 <= i < views.len() && #[trigger] views[i].to_set() == b by {
                let u = choose|u: int| 0 <= u < all.len() && #[trigger] all[u]@ == b;
                let i = choose|i: int| 0 <= i < rows.len() && #[trigger] rows@[i]@.to_set() == all[u]@;
                assert(views[i] == rows@[i]@);
            }
        }
        out
    }
}

} // verus!
