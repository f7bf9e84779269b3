use vstd::prelude::*;
use crate::batches::{meet_at_most_once, steiner_system};
use crate::counting::{cells, full, lemma_cells_len};
use crate::consistency::{consistent, entered, order3, seeds_kept};
use crate::exhaustive::{completion, triples_entered};
use crate::triples_array::table_wf;
use vstd::set_lib::{lemma_int_range, set_int_range};

verus! {

// Every Steiner triple system on `0 ..< n` covers each pair of elements with exactly one of
// its triples; renamed so that its triples through `0` are `{0, 2 * k - 1, 2 * k}`, it is a
// completion of a fresh search table.

/// Both elements of cell `x` (its row and its column) lie in batch `b`.
pub open spec fn in_batch(b: Set<u32>, x: (int, int)) -> bool {
    b.contains(x.0 as u32) && b.contains(x.1 as u32)
}

/// The cells of the pairs of elements in batch `b`.
pub open spec fn batch_cells(n: int, b: Set<u32>) -> Set<(int, int)> {
    cells(n).filter(|x: (int, int)| in_batch(b, x))
}

/// The cells of the pairs that a batch of `bs` covers.
pub open spec fn covered(n: int, bs: Set<Set<u32>>) -> Set<(int, int)> {
    cells(n).filter(|x: (int, int)| exists|b: Set<u32>| bs.contains(b) && #[trigger] in_batch(b, x))
}

/// A batch of three elements below `n` covers three pairs.
proof fn lemma_three_cells(n: int, b: Set<u32>)
    requires
        0 <= n <= u32::MAX + 1,
        b.finite(),
        b.len() == 3,
        forall|x: u32| #[trigger] b.contains(x) ==> x < n,
    ensures
        batch_cells(n, b).finite(),
        batch_cells(n, b).len() == 3,
{
    let a1 = b.choose();
    let b1 = b.remove(a1);
    let a2 = b1.choose();
    let b2 = b1.remove(a2);
    let a3 = b2.choose();
    assert(b.contains(a1));
    assert(b1.len() == 2);
    assert(b1.contains(a2));
    assert(b2.len() == 1);
    assert(b2.contains(a3));
    assert(b2.remove(a3).len() == 0);
    assert(b2.remove(a3) =~= Set::empty()) by {
        if exists|z: u32| b2.remove(a3).contains(z) {
            let z = choose|z: u32| b2.remove(a3).contains(z);
            vstd::set::axiom_set_contains_len(b2.remove(a3), z);
        }
    }
    assert(b =~= set![a1, a2, a3]) by {
        assert forall|z: u32| b.contains(z) implies z == a1 || z == a2 || z == a3 by {
            if z != a1 && z != a2 && z != a3 {
                assert(b2.remove(a3).contains(z));
            }
        }
    }
    let x = a1 as int;
    let y = a2 as int;
    let z = a3 as int;
    let hi = if x >= y && x >= z { x } else if y >= z { y } else { z };
    let lo = if x <= y && x <= z { x } else if y <= z { y } else { z };
    let mid = x + y + z - hi - lo;
    assert(lo < mid < hi);
    let c = batch_cells(n, b);
    let e = set![(hi, mid), (hi, lo), (mid, lo)];
    assert(c =~= e) by {
        assert forall|w: (int, int)| c.contains(w) implies e.contains(w) by {
            assert(cells(n).contains(w));
            assert(b.contains(w.0 as u32) && b.contains(w.1 as u32));
        }
        assert forall|w: (int, int)| e.contains(w) implies c.contains(w) by {
            assert(cells(n).contains(w));
            assert(in_batch(b, w));
        }
    }
    assert(e.len() == 3);
}

/// The batches of a collection that meet at most once, each of three elements below `n`,
/// cover three pairs each, with no pair twice.
proof fn lemma_covered_len(n: int, all: Set<Set<u32>>, bs: Set<Set<u32>>)
    requires
        0 <= n <= u32::MAX + 1,
        bs.finite(),
        bs.subset_of(all),
        meet_at_most_once(all),
        forall|b: Set<u32>| #[trigger] all.contains(b) ==> b.finite() && b.len() == 3 && forall|x: u32|
            #[trigger] b.contains(x) ==> x < n,
    ensures
        covered(n, bs).finite(),
        covered(n, bs).len() == 3 * bs.len(),
    decreases bs.len(),
{
    lemma_cells_len(n);
    vstd::set_lib::lemma_set_subset_finite(cells(n), covered(n, bs));
    if bs.len() == 0 {
        assert(bs =~= Set::empty()) by {
            if exists|b: Set<u32>| bs.contains(b) {
                let b = choose|b: Set<u32>| bs.contains(b);
                vstd::set::axiom_set_contains_len(bs, b);
            }
        }
        assert(covered(n, bs) =~= Set::empty());
    } else {
        let b = bs.choose();
        let rest = bs.remove(b);
        assert(bs.contains(b));
        assert(all.contains(b));
        lemma_covered_len(n, all, rest);
        lemma_three_cells(n, b);
        assert(covered(n, bs) =~= covered(n, rest) + batch_cells(n, b)) by {
            assert forall|w: (int, int)| covered(n, bs).contains(w) implies (covered(n, rest) + batch_cells(n, b)).contains(w) by {
                let b2 = choose|b2: Set<u32>| bs.contains(b2) && #[trigger] in_batch(b2, w);
                if b2 != b {
                    assert(rest.contains(b2));
                }
            }
            assert forall|w: (int, int)| (covered(n, rest) + batch_cells(n, b)).contains(w) implies covered(n, bs).contains(w) by {
                if covered(n, rest).contains(w) {
                    let b2 = choose|b2: Set<u32>| rest.contains(b2) && #[trigger] in_batch(b2, w);
                    assert(bs.contains(b2));
                } else {
                    assert(in_batch(b, w));
                }
            }
        }
        assert(covered(n, rest).disjoint(batch_cells(n, b))) by {
            assert forall|w: (int, int)| covered(n, rest).contains(w) implies !batch_cells(n, b).contains(w) by {
                let b2 = choose|b2: Set<u32>| rest.contains(b2) && #[trigger] in_batch(b2, w);
                assert(all.contains(b2));
                if batch_cells(n, b).contains(w) {
                    assert(b2 != b);
                    assert(b.contains(w.0 as u32) && b2.contains(w.1 as u32));
                    assert(b2.contains(w.0 as u32) && b.contains(w.1 as u32));
                    assert(w.0 as u32 != w.1 as u32);
                }
            }
        }
        vstd::set_lib::lemma_set_disjoint_lens(covered(n, rest), batch_cells(n, b));
    }
}

/// The batches of a Steiner triple system on `0 ..< n` cover every pair of elements.
pub proof fn lemma_all_covered(n: int, blocks: Set<Set<u32>>)
    requires
        3 <= n <= u32::MAX,
        steiner_system(n, 3, 0, n - 1, blocks),
    ensures
        covered(n, blocks) == cells(n),
{
    assert forall|b: Set<u32>| #[trigger] blocks.contains(b) implies b.finite() && b.len() == 3 && forall|x: u32|
        #[trigger] b.contains(x) ==> x < n by {}
    lemma_covered_len(n, blocks, blocks);
    lemma_cells_len(n);
    let m = blocks.len() as int;
    assert(6 * m == n * (n - 1)) by {
        vstd::arithmetic::div_mod::lemma_fundamental_div_mod(n * (n - 1), 6);
    }
    assert(covered(n, blocks).subset_of(cells(n)));
    if !(covered(n, blocks) =~= cells(n)) {
        let w = choose|w: (int, int)| covered(n, blocks).contains(w) != cells(n).contains(w);
        assert(cells(n).contains(w) && !covered(n, blocks).contains(w));
        assert(covered(n, blocks).subset_of(cells(n).remove(w)));
        vstd::set_lib::lemma_len_subset(covered(n, blocks), cells(n).remove(w));
        assert(false);
    }
    assert(covered(n, blocks) =~= cells(n));
}

/// The batch of `blocks` that holds elements `i` and `j`.
pub open spec fn block_of(blocks: Set<Set<u32>>, i: int, j: int) -> Set<u32> {
    choose|b: Set<u32>| blocks.contains(b) && b.contains(i as u32) && b.contains(j as u32)
}

/// The third element of the batch of `blocks` that holds `i` and `j`.
pub open spec fn third(blocks: Set<Set<u32>>, i: int, j: int) -> int {
    (choose|k: u32| block_of(blocks, i, j).contains(k) && k != i as u32 && k != j as u32) as int
}

/// In a Steiner triple system on `0 ..< n`, two elements lie in exactly one batch, made of
/// them and a third element.
pub proof fn lemma_third(n: int, blocks: Set<Set<u32>>, i: int, j: int)
    requires
        3 <= n <= u32::MAX,
        steiner_system(n, 3, 0, n - 1, blocks),
        0 <= i < n,
        0 <= j < n,
        i != j,
    ensures
        ({
            let b = block_of(blocks, i, j);
            let k = third(blocks, i, j);
            &&& blocks.contains(b)
            &&& 0 <= k < n
            &&& k != i
            &&& k != j
            &&& b == set![i as u32, j as u32, k as u32]
            &&& forall|b2: Set<u32>| #[trigger] blocks.contains(b2) && b2.contains(i as u32) && b2.contains(j as u32) ==> b2 == b
        }),
{
    lemma_all_covered(n, blocks);
    let hi = if i > j { i } else { j };
    let lo = if i > j { j } else { i };
    assert(cells(n).contains((hi, lo)));
    assert(covered(n, blocks).contains((hi, lo)));
    let b0 = choose|b0: Set<u32>| blocks.contains(b0) && #[trigger] in_batch(b0, (hi, lo));
    assert(blocks.contains(b0) && b0.contains(i as u32) && b0.contains(j as u32));
    let b = block_of(blocks, i, j);
    assert(blocks.contains(b) && b.contains(i as u32) && b.contains(j as u32));
    assert(b.finite() && b.len() == 3);
    let r = b.remove(i as u32).remove(j as u32);
    assert(r.len() == 1);
    let k0 = r.choose();
    assert(r.contains(k0));
    let k = third(blocks, i, j);
    assert(b.contains(k as u32) && k as u32 != i as u32 && k as u32 != j as u32);
    assert(k < n);
    assert(b =~= set![i as u32, j as u32, k as u32]) by {
        assert forall|z: u32| b.contains(z) implies z == i as u32 || z == j as u32 || z == k as u32 by {
            if z != i as u32 && z != j as u32 && z != k as u32 {
                assert(r.contains(z) && r.contains(k as u32));
                assert(r.remove(k as u32).contains(z));
                vstd::set::axiom_set_contains_len(r.remove(k as u32), z);
            }
        }
    }
    assert forall|b2: Set<u32>| #[trigger] blocks.contains(b2) && b2.contains(i as u32) && b2.contains(j as u32) implies b2 == b by {
        if b2 != b {
            assert(blocks.contains(b) && b.contains(i as u32) && b2.contains(j as u32));
        }
    }
}

/// In a Steiner triple system on `0 ..< n`, the third element of two elements of a batch is
/// the batch's remaining one.
pub proof fn lemma_third_in(n: int, blocks: Set<Set<u32>>, x: int, y: int, z: int)
    requires
        3 <= n <= u32::MAX,
        steiner_system(n, 3, 0, n - 1, blocks),
        0 <= x < n,
        0 <= y < n,
        0 <= z < n,
        x != y,
        y != z,
        x != z,
        blocks.contains(set![x as u32, y as u32, z as u32]),
    ensures
        third(blocks, x, y) == z,
{
    lemma_third(n, blocks, x, y);
    let b = set![x as u32, y as u32, z as u32];
    assert(b.contains(x as u32) && b.contains(y as u32));
    assert(block_of(blocks, x, y) == b);
    let k = third(blocks, x, y);
    assert(b.contains(k as u32));
}

/// The elements of `s` listed two by two, each element followed by its partner, the third
/// element of its batch with `0`.
pub open spec fn pair_list(blocks: Set<Set<u32>>, s: Set<int>) -> Seq<int>
    decreases s.len(),
{
    if s.finite() && s.len() > 0 {
        let x = s.choose();
        let rest = s.remove(x).remove(third(blocks, x, 0));
        proof {
            vstd::set::axiom_set_choose_len(s);
            vstd::set::axiom_set_remove_len(s, x);
            vstd::set::axiom_set_remove_finite(s, x);
            vstd::set::axiom_set_remove_len(s.remove(x), third(blocks, x, 0));
        }
        pair_list(blocks, rest) + seq![x, third(blocks, x, 0)]
    } else {
        Seq::empty()
    }
}

/// Listing a set of nonzero elements below `n` that holds each one's partner gives each once,
/// in pairs of an element and its partner.
proof fn lemma_pair_list(n: int, blocks: Set<Set<u32>>, s: Set<int>)
    requires
        3 <= n <= u32::MAX,
        steiner_system(n, 3, 0, n - 1, blocks),
        s.finite(),
        forall|x: int| #[trigger] s.contains(x) ==> 1 <= x < n && s.contains(third(blocks, x, 0)),
    ensures
        pair_list(blocks, s).len() == s.len(),
        pair_list(blocks, s).no_duplicates(),
        forall|v: int| pair_list(blocks, s).contains(v) <==> s.contains(v),
        pair_list(blocks, s).len() % 2 == 0,
        forall|i: int|
            0 <= i < pair_list(blocks, s).len() / 2 ==> #[trigger] pair_list(blocks, s)[2 * i + 1] == third(
                blocks,
                pair_list(blocks, s)[2 * i],
                0,
            ),
    decreases s.len(),
{
    let list = pair_list(blocks, s);
    if s.len() == 0 {
        assert(s =~= Set::empty()) by {
            if exists|z: int| s.contains(z) {
                let z = choose|z: int| s.contains(z);
                vstd::set::axiom_set_contains_len(s, z);
            }
        }
        assert(list =~= Seq::<int>::empty());
    } else {
        let x = s.choose();
        vstd::set::axiom_set_choose_len(s);
        let p = third(blocks, x, 0);
        lemma_third(n, blocks, x, 0);
        lemma_third(n, blocks, p, 0);
        let b = block_of(blocks, x, 0);
        assert(b == set![x as u32, 0u32, p as u32]);
        assert(b.contains(p as u32) && b.contains(0u32));
        assert(block_of(blocks, p, 0) == b);
        assert(set![p as u32, 0u32, x as u32] =~= b);
        lemma_third_in(n, blocks, p, 0, x);
        let rest = s.remove(x).remove(p);
        assert forall|y: int| #[trigger] rest.contains(y) implies 1 <= y < n && rest.contains(third(blocks, y, 0)) by {
            let q = third(blocks, y, 0);
            lemma_third(n, blocks, y, 0);
            assert(s.contains(q));
            let by0 = block_of(blocks, y, 0);
            assert(by0 == set![y as u32, 0u32, q as u32]);
            if q == x {
                assert(by0.contains(x as u32) && by0.contains(0u32));
                assert(by0 == b);
                assert(b.contains(y as u32));
            }
            if q == p {
                assert(by0.contains(p as u32) && by0.contains(0u32));
                assert(by0 == b);
                assert(b.contains(y as u32));
            }
        }
        lemma_pair_list(n, blocks, rest);
        let rl = pair_list(blocks, rest);
        assert(list == rl + seq![x, p]);
        assert(list.no_duplicates()) by {
            assert forall|i: int, j: int| 0 <= i < j < list.len() implies list[i] != list[j] by {
                if j >= rl.len() && i < rl.len() {
                    assert(rl.contains(rl[i]));
                }
            }
        }
        assert forall|v: int| list.contains(v) <==> s.contains(v) by {
            if list.contains(v) {
                let i = choose|i: int| 0 <= i < list.len() && list[i] == v;
                if i < rl.len() {
                    assert(rl.contains(v));
                }
            }
            if s.contains(v) {
                if v == x {
                    assert(list[rl.len() as int] == v);
                } else if v == p {
                    assert(list[rl.len() as int + 1] == v);
                } else {
                    assert(rest.contains(v));
                    assert(rl.contains(v));
                    let i = choose|i: int| 0 <= i < rl.len() && rl[i] == v;
                    assert(list[i] == v);
                }
            }
        }
        assert forall|i: int| 0 <= i < list.len() / 2 implies #[trigger] list[2 * i + 1] == third(blocks, list[2 * i], 0) by {
            if i < rl.len() / 2 {
                assert(rl[2 * i + 1] == third(blocks, rl[2 * i], 0));
            } else {
                assert(2 * i == rl.len());
            }
        }
    }
}

/// The new name of element `v`'s old one: `0` keeps its name, and `v` otherwise names the
/// `v`-th entry of the list.
pub open spec fn old_name(list: Seq<int>, v: int) -> int {
    if v == 0 {
        0
    } else {
        list[v - 1]
    }
}

/// The new name of old element `w`: its place in the list, from `1`.
pub open spec fn new_name(list: Seq<int>, w: int) -> int {
    if w == 0 {
        0
    } else {
        list.index_of(w) + 1
    }
}

/// The elements other than `0`, in pairs with their partners.
pub open spec fn pairing(blocks: Set<Set<u32>>, n: int) -> Seq<int> {
    pair_list(blocks, set_int_range(1, n))
}

/// The table of a Steiner triple system, its elements renamed so that the triples through
/// `0` become `{0, 2 * k - 1, 2 * k}`: cell `(i, j)` holds the third element of the batch of
/// `i` and `j`.
pub open spec fn renamed_table(blocks: Set<Set<u32>>, n: int) -> Seq<Seq<Option<usize>>> {
    let list = pairing(blocks, n);
    Seq::new(
        n as nat,
        |i: int|
            Seq::new(
                i as nat,
                |j: int| Some(new_name(list, third(blocks, old_name(list, i), old_name(list, j))) as usize),
            ),
    )
}

/// The renaming is a permutation of `0 ..< n` that keeps `0`, and it lists each element next
/// to its partner.
proof fn lemma_pairing(n: int, blocks: Set<Set<u32>>)
    requires
        3 <= n <= u32::MAX,
        steiner_system(n, 3, 0, n - 1, blocks),
    ensures
        pairing(blocks, n).len() == n - 1,
        forall|v: int| 0 <= v < n ==> 0 <= #[trigger] old_name(pairing(blocks, n), v) < n,
        forall|v: int| 0 <= v < n ==> new_name(pairing(blocks, n), #[trigger] old_name(pairing(blocks, n), v)) == v,
        forall|w: int| 0 <= w < n ==> 0 <= #[trigger] new_name(pairing(blocks, n), w) < n,
        forall|w: int| 0 <= w < n ==> old_name(pairing(blocks, n), #[trigger] new_name(pairing(blocks, n), w)) == w,
        forall|k: int|
            1 <= k && 2 * k < n ==> #[trigger] old_name(pairing(blocks, n), 2 * k) == third(
                blocks,
                old_name(pairing(blocks, n), 2 * k - 1),
                0,
            ),
{
    let s = set_int_range(1, n);
    lemma_int_range(1, n);
    assert forall|x: int| #[trigger] s.contains(x) implies 1 <= x < n && s.contains(third(blocks, x, 0)) by {
        lemma_third(n, blocks, x, 0);
    }
    lemma_pair_list(n, blocks, s);
    let list = pairing(blocks, n);
    assert forall|v: int| 0 <= v < n implies 0 <= #[trigger] old_name(list, v) < n by {
        if v > 0 {
            assert(list.contains(list[v - 1]));
            assert(s.contains(list[v - 1]));
        }
    }
    assert forall|v: int| 0 <= v < n implies new_name(list, #[trigger] old_name(list, v)) == v by {
        if v > 0 {
            assert(list.contains(list[v - 1]));
            assert(s.contains(list[v - 1]));
            let i = list.index_of(list[v - 1]);
            assert(0 <= i < list.len() && list[i] == list[v - 1]);
            assert(i == v - 1);
        }
    }
    assert forall|w: int| 0 <= w < n implies 0 <= #[trigger] new_name(list, w) < n by {
        if w > 0 {
            assert(s.contains(w));
            assert(list.contains(w));
        }
    }
    assert forall|w: int| 0 <= w < n implies old_name(list, #[trigger] new_name(list, w)) == w by {
        if w > 0 {
            assert(s.contains(w));
            assert(list.contains(w));
        }
    }
    assert forall|k: int| 1 <= k && 2 * k < n implies #[trigger] old_name(list, 2 * k) == third(
        blocks,
        old_name(list, 2 * k - 1),
        0,
    ) by {
        assert(list[2 * (k - 1) + 1] == third(blocks, list[2 * (k - 1)], 0));
    }
}

/// Where a batch holds the old names of `p`, `q` and `r`, the renamed table's cell of `p` and
/// `q` holds `r`.
proof fn lemma_renamed_cell(n: int, blocks: Set<Set<u32>>, b: Set<u32>, p: int, q: int, r: int)
    requires
        3 <= n <= u32::MAX,
        steiner_system(n, 3, 0, n - 1, blocks),
        0 <= q < p < n,
        0 <= r < n,
        r != p,
        r != q,
        blocks.contains(b),
        b.contains(old_name(pairing(blocks, n), p) as u32),
        b.contains(old_name(pairing(blocks, n), q) as u32),
        b.contains(old_name(pairing(blocks, n), r) as u32),
    ensures
        renamed_table(blocks, n)[p][q] == Some(r as usize),
{
    let list = pairing(blocks, n);
    lemma_pairing(n, blocks);
    let a = old_name(list, p);
    let c = old_name(list, q);
    let d = old_name(list, r);
    assert(new_name(list, a) == p && new_name(list, c) == q && new_name(list, d) == r);
    assert(a != c && a != d && c != d);
    lemma_third(n, blocks, a, c);
    assert(b == block_of(blocks, a, c));
    let k = third(blocks, a, c);
    assert(set![a as u32, c as u32, k as u32].contains(d as u32));
    assert(k == d);
}

/// Renamed so that its triples through `0` are `{0, 2 * k - 1, 2 * k}`, a Steiner triple
/// system on `0 ..< n` is a completion of a fresh search table: a search from a fresh table
/// that finds none has shown that no Steiner triple system on `0 ..< n` exists.
pub proof fn law_system_gives_completion(n: int, blocks: Set<Set<u32>>)
    requires
        3 <= n <= u32::MAX,
        steiner_system(n, 3, 0, n - 1, blocks),
    ensures
        completion(renamed_table(blocks, n), n),
{
    let list = pairing(blocks, n);
    let u = renamed_table(blocks, n);
    lemma_pairing(n, blocks);
    assert forall|i: int, j: int| 0 <= j < i < n implies #[trigger] u[i][j] == Some(
        new_name(list, third(blocks, old_name(list, i), old_name(list, j))) as usize,
    ) && 0 <= new_name(list, third(blocks, old_name(list, i), old_name(list, j))) < n by {
        let a = old_name(list, i);
        let c = old_name(list, j);
        assert(new_name(list, a) == i && new_name(list, c) == j);
        lemma_third(n, blocks, a, c);
    }
    assert(table_wf(u));
    assert(full(u));
    assert(consistent(u)) by {
        assert forall|i: int, j: int| 0 <= j < i < u.len() && #[trigger] u[i][j] is Some implies {
            let e = u[i][j]->0 as int;
            let s = order3(e, i, j);
            e != i && e != j && entered(u, s.0, s.1, s.2)
        } by {
            let a = old_name(list, i);
            let c = old_name(list, j);
            assert(new_name(list, a) == i && new_name(list, c) == j);
            lemma_third(n, blocks, a, c);
            let k = third(blocks, a, c);
            let e = new_name(list, k);
            assert(old_name(list, e) == k);
            let b = block_of(blocks, a, c);
            assert(b.contains(a as u32) && b.contains(c as u32) && b.contains(k as u32));
            assert(e != i && e != j);
            let s = order3(e, i, j);
            lemma_renamed_cell(n, blocks, b, s.0, s.1, s.2);
            lemma_renamed_cell(n, blocks, b, s.0, s.2, s.1);
            lemma_renamed_cell(n, blocks, b, s.1, s.2, s.0);
        }
    }
    assert(triples_entered(u)) by {
        reveal(triples_entered);
    }
    assert(seeds_kept(u)) by {
        assert forall|k: int| 1 <= k && 2 * k < u.len() implies #[trigger] entered(u, 2 * k, 2 * k - 1, 0) by {
            let x = old_name(list, 2 * k - 1);
            assert(old_name(list, 2 * k) == third(blocks, x, 0));
            assert(old_name(list, 0) == 0);
            assert(new_name(list, x) == 2 * k - 1);
            lemma_third(n, blocks, x, 0);
            let b = block_of(blocks, x, 0);
            assert(b.contains(x as u32) && b.contains(0u32) && b.contains(third(blocks, x, 0) as u32));
            lemma_renamed_cell(n, blocks, b, 2 * k, 2 * k - 1, 0);
            lemma_renamed_cell(n, blocks, b, 2 * k, 0, 2 * k - 1);
            lemma_renamed_cell(n, blocks, b, 2 * k - 1, 0, 2 * k);
        }
    }
}

/// Where no table on `n` elements completes a fresh one, no Steiner triple system on
/// `0 ..< n` exists.
pub proof fn lemma_no_system(n: int)
    requires
        1 <= n <= u32::MAX,
        forall|u: Seq<Seq<Option<usize>>>| !completion(u, n),
    ensures
        forall|blocks: Set<Set<u32>>| !#[trigger] steiner_system(n, 3, 0, n - 1, blocks),
{
    assert forall|blocks: Set<Set<u32>>| !#[trigger] steiner_system(n, 3, 0, n - 1, blocks) by {
        if steiner_system(n, 3, 0, n - 1, blocks) && n >= 3 {
            law_system_gives_completion(n, blocks);
            assert(!completion(renamed_table(blocks, n), n));
        }
    }
}

} // verus!
