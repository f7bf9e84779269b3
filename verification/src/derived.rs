use vstd::prelude::*;
use vstd::arithmetic::div_mod::{lemma_fundamental_div_mod, lemma_fundamental_div_mod_converse};
use vstd::math::abs;
use std::collections::BTreeSet;
use crate::batches::{
    count_ok, header_ok, meet_at_most_once, set_elements, shapes_ok, steiner_system, Batches,
};
use crate::fx_sets::{batch_sets, BatchSet};
use crate::number_theory::{
    divides, gcd, lemma_combination_divisible, lemma_coprime_cancel, lemma_same_residue,
    lemma_small_multiple_is_zero,
};

verus! {

broadcast use vstd::laws_cmp::group_laws_cmp, vstd::std_specs::btree::group_btree_axioms;

// Designs built from other designs. The product of a design on the `o` elements
// `min ..< min + o` by `p` lives on `p` copies of those elements: copy `q` holds the elements
// `min + q * o ..< min + (q + 1) * o`. Its batches are every batch of the design placed in every
// copy, and the `o * o` transversals, each of which takes one element from every copy.

/// The elements of `b`, each raised by `d`.
pub open spec fn raised(b: Set<u32>, d: int) -> Set<u32> {
    Set::new(|x: u32| d <= x && b.contains((x - d) as u32))
}

/// Copy `k` of batch `b` of a design on `o` elements: `b` raised by `k * o`.
pub open spec fn copy_of(b: Set<u32>, o: int, k: int) -> Set<u32> {
    raised(b, k * o)
}

/// Transversal `(i, j)` of the product by `p` of a design on `min ..< min + o`: element
/// `min + i` of copy `0` and, in each copy `q` from `1` to `p - 1`, the element at position
/// `(i * q + j) % o` of that copy.
pub open spec fn transversal(min: int, o: int, p: int, i: int, j: int) -> Set<u32> {
    Set::new(
        |x: u32|
            x == min + i || (min + o <= x < min + p * o && (x - min) % o == (i * ((x - min) / o) + j)
                % o),
    )
}

/// The batches of the product by `p` of the design `blocks` on `min ..< min + o`.
pub open spec fn product_sets(blocks: Set<Set<u32>>, min: int, o: int, p: int) -> Set<Set<u32>> {
    Set::new(
        |s: Set<u32>|
            (exists|k: int, b: Set<u32>|
                0 <= k < p && #[trigger] blocks.contains(b) && s == #[trigger] copy_of(b, o, k))
                || (exists|i: int, j: int|
                0 <= i < o && 0 <= j < o && s == #[trigger] transversal(min, o, p, i, j)),
    )
}

/// Every element of every batch lies in `min ..< min + o`.
pub open spec fn within(blocks: Set<Set<u32>>, min: int, o: int) -> bool {
    forall|b: Set<u32>, x: u32|
        #![trigger blocks.contains(b), b.contains(x)]
        blocks.contains(b) && b.contains(x) ==> min <= x < min + o
}

/// No two positions of the product's copies `1 ..< p` lie a distance apart that shares a
/// factor with `o`: every `d` from `1` to `p - 2` is coprime to `o`.
pub open spec fn copies_coprime(o: int, p: int) -> bool {
    forall|d: int| 1 <= d <= p - 2 ==> #[trigger] gcd(d as nat, o as nat) == 1
}

/// The copies `0 ..< n` of every batch, and copy `n` of the first `t` batches of `views`.
spec fn copies_so_far(blocks: Set<Set<u32>>, views: Seq<Set<u32>>, o: int, n: int, t: int) -> Set<
    Set<u32>,
> {
    Set::new(
        |s: Set<u32>|
            (exists|k: int, b: Set<u32>|
                0 <= k < n && #[trigger] blocks.contains(b) && s == #[trigger] copy_of(b, o, k))
                || (exists|u: int| 0 <= u < t && s == #[trigger] copy_of(views[u], o, n)),
    )
}

/// The transversals `(a, c)` before `(i, j)`, in the order of `a`, then `c`.
spec fn transversals_so_far(min: int, o: int, p: int, i: int, j: int) -> Set<Set<u32>> {
    Set::new(
        |s: Set<u32>|
            exists|a: int, c: int|
                ((0 <= a < i && 0 <= c < o) || (a == i && 0 <= c < j)) && s == #[trigger] transversal(
                    min,
                    o,
                    p,
                    a,
                    c,
                ),
    )
}

/// A number from `q * o` up to `q * o + o` has quotient `q` by `o`.
proof fn lemma_quotient(d: int, o: int, q: int)
    requires
        o > 0,
        q * o <= d < q * o + o,
    ensures
        d / o == q,
        d % o == d - q * o,
{
    lemma_fundamental_div_mod_converse(d, o, q, d - q * o);
}

/// Two numbers with the same quotient and remainder by `o` are equal.
proof fn lemma_same_coords(d1: int, d2: int, o: int)
    requires
        o > 0,
        d1 / o == d2 / o,
        d1 % o == d2 % o,
    ensures
        d1 == d2,
{
    lemma_fundamental_div_mod(d1, o);
    lemma_fundamental_div_mod(d2, o);
}

/// The elements of copy `k` of a batch lie in copy `k`.
proof fn lemma_copy_range(blocks: Set<Set<u32>>, b: Set<u32>, min: int, o: int, k: int, x: u32)
    requires
        within(blocks, min, o),
        blocks.contains(b),
        k >= 0,
        copy_of(b, o, k).contains(x),
    ensures
        min + k * o <= x < min + k * o + o,
        b.contains((x - k * o) as u32),
{
    assert(b.contains((x - k * o) as u32));
}

/// An element of a batch, raised into copy `k`, lies in the batch's copy `k`.
proof fn lemma_copy_member(b: Set<u32>, o: int, k: int, y: u32)
    requires
        b.contains(y),
        k * o >= 0,
        y + k * o <= u32::MAX,
    ensures
        copy_of(b, o, k).contains((y + k * o) as u32),
{
    let x = (y + k * o) as u32;
    assert((x - k * o) as u32 == y);
}

/// Copies of two batches into the same copy are equal only if the batches are.
proof fn lemma_copy_injective(blocks: Set<Set<u32>>, b1: Set<u32>, b2: Set<u32>, min: int, o: int, p: int, k: int)
    requires
        within(blocks, min, o),
        blocks.contains(b1),
        blocks.contains(b2),
        0 <= k < p,
        o >= 0,
        min + p * o <= u32::MAX + 1,
        copy_of(b1, o, k) == copy_of(b2, o, k),
    ensures
        b1 == b2,
{
    assert(k * o <= (p - 1) * o) by (nonlinear_arith)
        requires
            0 <= k < p,
            o >= 0,
    ;
    assert(k * o >= 0) by (nonlinear_arith)
        requires
            k >= 0,
            o >= 0,
    ;
    assert((p - 1) * o + o == p * o) by (nonlinear_arith);
    assert forall|y: u32| b1.contains(y) <==> b2.contains(y) by {
        if b1.contains(y) {
            lemma_copy_member(b1, o, k, y);
            lemma_copy_range(blocks, b2, min, o, k, (y + k * o) as u32);
        }
        if b2.contains(y) {
            lemma_copy_member(b2, o, k, y);
            lemma_copy_range(blocks, b1, min, o, k, (y + k * o) as u32);
        }
    }
    assert(b1 =~= b2);
}

/// A nonempty batch's copies into different copies differ.
proof fn lemma_copies_apart(blocks: Set<Set<u32>>, b1: Set<u32>, b2: Set<u32>, min: int, o: int, p: int, k1: int, k2: int, y: u32)
    requires
        within(blocks, min, o),
        blocks.contains(b1),
        blocks.contains(b2),
        b1.contains(y),
        0 <= k1 < k2 < p,
        min + p * o <= u32::MAX + 1,
    ensures
        copy_of(b1, o, k2) != copy_of(b2, o, k1),
{
    assert(o > 0);
    assert(k2 * o <= (p - 1) * o) by (nonlinear_arith)
        requires
            0 <= k2 < p,
            o > 0,
    ;
    assert(k1 * o >= 0 && k2 * o >= k1 * o + o) by (nonlinear_arith)
        requires
            0 <= k1 < k2,
            o > 0,
    ;
    assert((p - 1) * o + o == p * o) by (nonlinear_arith);
    lemma_copy_member(b1, o, k2, y);
    if copy_of(b1, o, k2) == copy_of(b2, o, k1) {
        lemma_copy_range(blocks, b2, min, o, k1, (y + k2 * o) as u32);
    }
}

/// A transversal holds one element in each copy: two of its elements in the same copy are
/// equal.
proof fn lemma_transversal_one_per_copy(min: int, o: int, p: int, i: int, j: int, x: u32, y: u32)
    requires
        o > 0,
        0 <= i < o,
        transversal(min, o, p, i, j).contains(x),
        transversal(min, o, p, i, j).contains(y),
        (x < min + o) == (y < min + o),
        x >= min + o ==> (x - min) / o == (y - min) / o,
    ensures
        x == y,
{
    if x >= min + o {
        lemma_same_coords(x - min, y - min, o);
    }
}

/// In copy `q` of the product, transversal `(i, j)` holds the element at `(i * q + j) % o`.
proof fn lemma_transversal_copy(min: int, o: int, p: int, i: int, j: int, x: u32)
    requires
        o > 0,
        0 <= i < o,
        transversal(min, o, p, i, j).contains(x),
        x >= min + o,
    ensures
        1 <= (x - min) / o < p,
        (x - min) % o == (i * ((x - min) / o) + j) % o,
{
    lemma_fundamental_div_mod(x - min, o);
    let q = (x - min) / o;
    let r = (x - min) % o;
    assert(q >= 1 && q < p) by (nonlinear_arith)
        requires
            x - min == o * q + r,
            0 <= r < o,
            o <= x - min < p * o,
    ;
}

/// Two different transversals share at most one element, when the distances between copies
/// `1 ..< p` are coprime to `o`.
proof fn lemma_transversals_meet_once(min: int, o: int, p: int, i1: int, j1: int, i2: int, j2: int, x: u32, y: u32)
    requires
        o > 0,
        p >= 2,
        copies_coprime(o, p),
        0 <= i1 < o,
        0 <= j1 < o,
        0 <= i2 < o,
        0 <= j2 < o,
        transversal(min, o, p, i1, j1) != transversal(min, o, p, i2, j2),
        transversal(min, o, p, i1, j1).contains(x),
        transversal(min, o, p, i1, j1).contains(y),
        transversal(min, o, p, i2, j2).contains(x),
        transversal(min, o, p, i2, j2).contains(y),
    ensures
        x == y,
{
    if x != y {
        // Each transversal holds one element per copy, so `x` and `y` lie in different copies.
        if x < min + o && y < min + o {
            lemma_transversal_one_per_copy(min, o, p, i1, j1, x, y);
        }
        if x >= min + o && y >= min + o && (x - min) / o == (y - min) / o {
            lemma_transversal_one_per_copy(min, o, p, i1, j1, x, y);
        }
        if (i1, j1) == (i2, j2) {
        } else if x < min + o || y < min + o {
            // One of them is the element of copy `0`, which fixes `i`; the other fixes `j`.
            let z = if x < min + o { y } else { x };
            let w = if x < min + o { x } else { y };
            assert(w == min + i1 && w == min + i2);
            lemma_transversal_copy(min, o, p, i1, j1, z);
            lemma_transversal_copy(min, o, p, i2, j2, z);
            let q = (z - min) / o;
            assert(i1 == i2);
            lemma_same_residue(o, i1 * q + j1, i2 * q + j2);
            lemma_small_multiple_is_zero(o, j1 - j2);
        } else {
            lemma_transversal_copy(min, o, p, i1, j1, x);
            lemma_transversal_copy(min, o, p, i2, j2, x);
            lemma_transversal_copy(min, o, p, i1, j1, y);
            lemma_transversal_copy(min, o, p, i2, j2, y);
            let qx = (x - min) / o;
            let qy = (y - min) / o;
            lemma_same_residue(o, i1 * qx + j1, i2 * qx + j2);
            lemma_same_residue(o, i1 * qy + j1, i2 * qy + j2);
            let a = (i1 * qx + j1) - (i2 * qx + j2);
            let b = (i1 * qy + j1) - (i2 * qy + j2);
            lemma_combination_divisible(o, a, b, 1, -1);
            assert(a * 1 + b * (-1) == (i1 - i2) * (qx - qy)) by (nonlinear_arith)
                requires
                    a == (i1 * qx + j1) - (i2 * qx + j2),
                    b == (i1 * qy + j1) - (i2 * qy + j2),
            ;
            let d = abs(qx - qy);
            assert(1 <= d <= p - 2);
            assert(gcd(d as nat, o as nat) == 1);
            lemma_coprime_cancel(o, qx - qy, i1 - i2);
            lemma_small_multiple_is_zero(o, i1 - i2);
            assert(i1 * qx == i2 * qx);
            lemma_same_residue(o, i1 * qx + j1, i2 * qx + j2);
            lemma_small_multiple_is_zero(o, j1 - j2);
        }
    }
}

/// A copy of a batch and a transversal share at most one element.
proof fn lemma_copy_meets_transversal_once(blocks: Set<Set<u32>>, b: Set<u32>, min: int, o: int, p: int, k: int, i: int, j: int, x: u32, y: u32)
    requires
        within(blocks, min, o),
        blocks.contains(b),
        0 <= k < p,
        0 <= i < o,
        copy_of(b, o, k).contains(x),
        copy_of(b, o, k).contains(y),
        transversal(min, o, p, i, j).contains(x),
        transversal(min, o, p, i, j).contains(y),
    ensures
        x == y,
{
    lemma_copy_range(blocks, b, min, o, k, x);
    lemma_copy_range(blocks, b, min, o, k, y);
    assert(o > 0);
    if k == 0 {
        assert(k * o == 0) by (nonlinear_arith)
            requires
                k == 0,
        ;
        lemma_transversal_one_per_copy(min, o, p, i, j, x, y);
    } else {
        assert(k * o >= o) by (nonlinear_arith)
            requires
                k >= 1,
                o > 0,
        ;
        lemma_quotient(x - min, o, k);
        lemma_quotient(y - min, o, k);
        lemma_transversal_one_per_copy(min, o, p, i, j, x, y);
    }
}

/// Two different batches of the product share at most one element, when the design's
/// batches do and the distances between copies `1 ..< p` are coprime to `o`.
proof fn lemma_product_meets_once(blocks: Set<Set<u32>>, min: int, o: int, p: int)
    requires
        o > 0,
        p >= 2,
        within(blocks, min, o),
        meet_at_most_once(blocks),
        copies_coprime(o, p),
        min + p * o <= u32::MAX + 1,
    ensures
        meet_at_most_once(product_sets(blocks, min, o, p)),
{
    let prod = product_sets(blocks, min, o, p);
    assert forall|s1: Set<u32>, s2: Set<u32>, x: u32, y: u32|
        #![trigger prod.contains(s1), prod.contains(s2), s1.contains(x), s2.contains(y)]
        prod.contains(s1) && prod.contains(s2) && s1 != s2 && s1.contains(x) && s1.contains(y)
            && s2.contains(x) && s2.contains(y) implies x == y by {
        let c1 = exists|k: int, b: Set<u32>|
            0 <= k < p && #[trigger] blocks.contains(b) && s1 == #[trigger] copy_of(b, o, k);
        let c2 = exists|k: int, b: Set<u32>|
            0 <= k < p && #[trigger] blocks.contains(b) && s2 == #[trigger] copy_of(b, o, k);
        if c1 && c2 {
            let (k1, b1) = choose|k: int, b: Set<u32>|
                0 <= k < p && #[trigger] blocks.contains(b) && s1 == #[trigger] copy_of(b, o, k);
            let (k2, b2) = choose|k: int, b: Set<u32>|
                0 <= k < p && #[trigger] blocks.contains(b) && s2 == #[trigger] copy_of(b, o, k);
            lemma_copy_range(blocks, b1, min, o, k1, x);
            lemma_copy_range(blocks, b2, min, o, k2, x);
            lemma_copy_range(blocks, b1, min, o, k1, y);
            lemma_copy_range(blocks, b2, min, o, k2, y);
            assert(k1 * o >= 0 && k2 * o >= 0) by (nonlinear_arith)
                requires
                    k1 >= 0,
                    k2 >= 0,
                    o > 0,
            ;
            lemma_quotient(x - min, o, k1);
            lemma_quotient(x - min, o, k2);
            assert(k1 == k2);
            assert(b1 != b2);
            let x0 = (x - k1 * o) as u32;
            let y0 = (y - k1 * o) as u32;
            assert(blocks.contains(b1) && blocks.contains(b2) && b1.contains(x0) && b2.contains(y0));
            assert(b1.contains(y0) && b2.contains(x0));
        } else if c1 {
            let (k1, b1) = choose|k: int, b: Set<u32>|
                0 <= k < p && #[trigger] blocks.contains(b) && s1 == #[trigger] copy_of(b, o, k);
            let (i2, j2) = choose|i: int, j: int|
                0 <= i < o && 0 <= j < o && s2 == #[trigger] transversal(min, o, p, i, j);
            lemma_copy_meets_transversal_once(blocks, b1, min, o, p, k1, i2, j2, x, y);
        } else if c2 {
            let (k2, b2) = choose|k: int, b: Set<u32>|
                0 <= k < p && #[trigger] blocks.contains(b) && s2 == #[trigger] copy_of(b, o, k);
            let (i1, j1) = choose|i: int, j: int|
                0 <= i < o && 0 <= j < o && s1 == #[trigger] transversal(min, o, p, i, j);
            lemma_copy_meets_transversal_once(blocks, b2, min, o, p, k2, i1, j1, x, y);
        } else {
            let (i1, j1) = choose|i: int, j: int|
                0 <= i < o && 0 <= j < o && s1 == #[trigger] transversal(min, o, p, i, j);
            let (i2, j2) = choose|i: int, j: int|
                0 <= i < o && 0 <= j < o && s2 == #[trigger] transversal(min, o, p, i, j);
            lemma_transversals_meet_once(min, o, p, i1, j1, i2, j2, x, y);
        }
    }
}

/// The parameters of the product by `p` of a Steiner system on `o` elements fit, and it has
/// `p * n + o * o` batches when the system has `n`.
proof fn lemma_product_header(o: int, p: int, min: int, max: int, n: int)
    requires
        header_ok(o, p, min, max),
        n * (p * (p - 1)) == o * (o - 1),
    ensures
        header_ok(o * p, p, min, max + (p - 1) * o),
        ((o * p) * (o * p - 1)) / (p * (p - 1)) == p * n + o * o,
{
    assert(o >= p) by (nonlinear_arith)
        requires
            p > 1,
            p == o || p * (p - 1) + 1 <= o,
    ;
    assert(o * p >= p * (p - 1) + 1 && o * p > 1 && o * p != p) by (nonlinear_arith)
        requires
            o >= p,
            p > 1,
    ;
    assert(o * p - 1 + min == max + (p - 1) * o) by (nonlinear_arith)
        requires
            o - 1 + min == max,
    ;
    lemma_fundamental_div_mod(o - 1, p - 1);
    let c = (o - 1) / (p - 1);
    assert(o * p - 1 == (c + o) * (p - 1)) by (nonlinear_arith)
        requires
            o - 1 == (p - 1) * c,
    ;
    lemma_fundamental_div_mod_converse(o * p - 1, p - 1, c + o, 0);
    assert((o * p) * (o * p - 1) == (p * n + o * o) * (p * (p - 1))) by (nonlinear_arith)
        requires
            n * (p * (p - 1)) == o * (o - 1),
    ;
    assert(p * (p - 1) > 0) by (nonlinear_arith)
        requires
            p > 1,
    ;
    lemma_fundamental_div_mod_converse((o * p) * (o * p - 1), p * (p - 1), p * n + o * o, 0);
}

/// Batch `set` with each element raised by `d`.
fn raise_batch(set: &BTreeSet<u32>, d: u32) -> (r: BTreeSet<u32>)
    requires
        forall|x: u32| #[trigger] set@.contains(x) ==> x + d <= u32::MAX,
    ensures
        r@ == raised(set@, d as int),
        r@.finite(),
        set@.finite(),
        r@.len() == set@.len(),
{
    let elems = set_elements(set);
    let mut out = BTreeSet::new();
    let mut e: usize = 0;
    while e < elems.len()
        invariant
            0 <= e <= elems.len(),
            elems@.to_set() == set@,
            elems@.no_duplicates(),
            forall|x: u32| #[trigger] set@.contains(x) ==> x + d <= u32::MAX,
            out@.finite(),
            out@.len() == e,
            forall|x: u32| #[trigger]
                out@.contains(x) <==> exists|u: int| 0 <= u < e && x == elems@[u] + d,
        decreases elems.len() - e,
    {
        assert(set@.contains(elems@[e as int])) by {
            assert(elems@.to_set().contains(elems@[e as int]));
        }
        let x = elems[e] + d;
        proof {
            if out@.contains(x) {
                let u = choose|u: int| 0 <= u < e && x == elems@[u] + d;
                assert(elems@[u] == elems@[e as int]);
            }
        }
        out.insert(x);
        proof {
            assert forall|y: u32| #[trigger]
                out@.contains(y) <==> exists|u: int| 0 <= u < e + 1 && y == elems@[u] + d by {
                if y == x {
                    assert(0 <= e < e + 1 && y == elems@[e as int] + d);
                }
            }
        }
        e += 1;
    }
    proof {
        assert forall|x: u32| out@.contains(x) <==> raised(set@, d as int).contains(x) by {
            if out@.contains(x) {
                let u = choose|u: int| 0 <= u < e && x == elems@[u] + d;
                assert(elems@.to_set().contains(elems@[u]));
            }
            if raised(set@, d as int).contains(x) {
                let y = (x - d) as u32;
                assert(elems@.to_set().contains(y));
                let u = choose|u: int| 0 <= u < elems.len() && elems@[u] == y;
            }
        }
        assert(out@ =~= raised(set@, d as int));
    }
    out
}

/// Transversal `(i, j)` of the product by `p` of a design on `min ..< min + o`.
fn transversal_batch(min: u32, o: u32, p: u32, i: u32, j: u32) -> (r: BTreeSet<u32>)
    requires
        i < o,
        j < o,
        p >= 1,
        min + p * o <= u32::MAX + 1,
    ensures
        r@ == transversal(min as int, o as int, p as int, i as int, j as int),
        r@.finite(),
        r@.len() == p,
{
    assert(o <= p * o) by (nonlinear_arith)
        requires
            p >= 1,
    ;
    let mut set = BTreeSet::new();
    set.insert(min + i);
    let mut q: u32 = 1;
    while q < p
        invariant
            1 <= q <= p,
            i < o,
            j < o,
            min + p * o <= u32::MAX + 1,
            set@.finite(),
            set@.len() == q,
            forall|x: u32| #[trigger]
                set@.contains(x) <==> (x == min + i || (min + o <= x < min + q * o && (x - min) % (o as int)
                    == (i * ((x - min) / (o as int)) + j) % (o as int))),
        decreases p - q,
    {
        assert(o * q + o <= p * o && i * q + j < p * o && (o * q) as int == q * o) by (nonlinear_arith)
            requires
                1 <= q < p,
                i < o,
                j < o,
        ;
        let r = (i * q + j) % o;
        let x = min + o * q + r;
        proof {
            lemma_quotient(x - min, o as int, q as int);
            assert(o <= q * o) by (nonlinear_arith)
                requires
                    q >= 1,
            ;
            assert forall|y: u32| #[trigger] set@.contains(y) implies y < min + q * o by {
                if y != min + i {
                    assert(y < min + q * o);
                }
            }
        }
        set.insert(x);
        proof {
            assert forall|y: u32| #[trigger]
                set@.contains(y) <==> (y == min + i || (min + o <= y < min + (q + 1) * o && (y - min) % (o as int)
                    == (i * ((y - min) / (o as int)) + j) % (o as int))) by {
                assert((q + 1) * o == q * o + o) by (nonlinear_arith);
                if min + q * o <= y < min + (q + 1) * o {
                    lemma_quotient(y - min, o as int, q as int);
                    if (y - min) % (o as int) == (i * ((y - min) / (o as int)) + j) % (o as int) {
                        assert(y == x);
                    }
                }
            }
        }
        q += 1;
    }
    proof {
        assert(set@ =~= transversal(min as int, o as int, p as int, i as int, j as int));
    }
    set
}

/// Every copy of every batch, and the transversals before `(a, c)`.
spec fn product_so_far(blocks: Set<Set<u32>>, views: Seq<Set<u32>>, min: int, o: int, p: int, a: int, c: int) -> Set<
    Set<u32>,
> {
    copies_so_far(blocks, views, o, p, 0) + transversals_so_far(min, o, p, a, c)
}

/// Transversal `(a, c)` is none of the batches built before it.
proof fn lemma_transversal_new(blocks: Set<Set<u32>>, views: Seq<Set<u32>>, min: int, o: int, p: int, a: int, c: int)
    requires
        within(blocks, min, o),
        p >= 2,
        0 <= a < o,
        0 <= c < o,
        min >= 0,
        min + p * o <= u32::MAX + 1,
    ensures
        !product_so_far(blocks, views, min, o, p, a, c).contains(transversal(min, o, p, a, c)),
{
    let t = transversal(min, o, p, a, c);
    let x1 = min + o + (a + c) % o;
    assert(2 * o <= p * o) by (nonlinear_arith)
        requires
            p >= 2,
            o > 0,
    ;
    lemma_quotient(x1 - min, o, 1);
    let xu = x1 as u32;
    assert(xu == x1);
    assert((xu - min) / o == 1 && (xu - min) % o == (a * 1 + c) % o);
    assert(t.contains(xu));
    let yu = (min + a) as u32;
    assert(yu == min + a);
    assert(t.contains(yu));
    if copies_so_far(blocks, views, o, p, 0).contains(t) {
        let (k, b) = choose|k: int, b: Set<u32>|
            0 <= k < p && #[trigger] blocks.contains(b) && t == #[trigger] copy_of(b, o, k);
        lemma_copy_range(blocks, b, min, o, k, yu);
        lemma_copy_range(blocks, b, min, o, k, xu);
        if k >= 1 {
            assert(k * o >= o) by (nonlinear_arith)
                requires
                    k >= 1,
                    o > 0,
            ;
        } else {
            assert(k * o == 0) by (nonlinear_arith)
                requires
                    k == 0,
            ;
        }
    }
    if transversals_so_far(min, o, p, a, c).contains(t) {
        let (a2, c2) = choose|a2: int, c2: int|
            ((0 <= a2 < a && 0 <= c2 < o) || (a2 == a && 0 <= c2 < c)) && t == #[trigger] transversal(min, o, p, a2, c2);
        assert(transversal(min, o, p, a2, c2).contains(yu));
        assert(a2 == a);
        assert(transversal(min, o, p, a2, c2).contains(xu));
        lemma_same_residue(o, a * 1 + c, a * 1 + c2);
        lemma_small_multiple_is_zero(o, c - c2);
    }
}

/// The batches of a product lie in its `p * o` elements.
proof fn lemma_product_range(blocks: Set<Set<u32>>, min: int, o: int, p: int, s: Set<u32>, x: u32)
    requires
        within(blocks, min, o),
        p >= 1,
        product_sets(blocks, min, o, p).contains(s),
        s.contains(x),
    ensures
        min <= x < min + p * o,
{
    if exists|k: int, b: Set<u32>| 0 <= k < p && #[trigger] blocks.contains(b) && s == #[trigger] copy_of(b, o, k) {
        let (k, b) = choose|k: int, b: Set<u32>|
            0 <= k < p && #[trigger] blocks.contains(b) && s == #[trigger] copy_of(b, o, k);
        lemma_copy_range(blocks, b, min, o, k, x);
        assert(k * o + o <= p * o && k * o >= 0) by (nonlinear_arith)
            requires
                0 <= k < p,
                o > 0,
        ;
    } else {
        let (i, j) = choose|i: int, j: int| 0 <= i < o && 0 <= j < o && s == #[trigger] transversal(min, o, p, i, j);
        assert(o <= p * o) by (nonlinear_arith)
            requires
                p >= 1,
                o > 0,
        ;
    }
}

impl Batches {
    /// The product of the batches by `phi`: `phi` copies of the batches' `omicron` elements,
    /// copy `q` raised by `q * omicron`, holding every batch in every copy and the
    /// `omicron * omicron` transversals that take one element from each copy. It has `phi`
    /// and `omicron * phi` elements from `min`; a Steiner system gives a Steiner system when
    /// every distance `1 ..= phi - 2` between copies is coprime to `omicron`.
    pub fn phi_x_omicron(&self) -> (r: Batches)
        requires
            self.phi >= 2,
            forall|b: Set<u32>| #[trigger] self.blocks().contains(b) ==> b.len() > 0,
            within(self.blocks(), self.min as int, self.omicron as int),
            self.min + self.phi * self.omicron <= u32::MAX + 1,
            self.phi * self.omicron <= u32::MAX,
            self.max + (self.phi - 1) * self.omicron <= u32::MAX,
            self.phi - 1 + self.omicron <= usize::MAX,
            (self.phi - 1 + self.omicron) * self.omicron <= usize::MAX,
        ensures
            r.omicron == self.omicron * self.phi,
            r.phi == self.phi,
            r.min == self.min,
            r.max == self.max + (self.phi - 1) * self.omicron,
            r.blocks() == product_sets(
                self.blocks(),
                self.min as int,
                self.omicron as int,
                self.phi as int,
            ),
            r.blocks().finite(),
            r.blocks().len() == self.phi * self.blocks().len() + self.omicron * self.omicron,
            within(r.blocks(), r.min as int, r.omicron as int),
            forall|b: Set<u32>| #[trigger] r.blocks().contains(b) ==> b.len() > 0,
            self.is_steiner_system() && copies_coprime(self.omicron as int, self.phi as int)
                ==> r.is_steiner_system(),
    {
        let o = self.omicron;
        let p = self.phi;
        let mn = self.min;
        let ghost blocks = self.blocks();
        let ghost uniform = forall|b: Set<u32>| #[trigger] blocks.contains(b) ==> b.finite() && b.len() == p;
        let all = self.sets.to_vec();
        let ghost views = all@.map_values(|b: BTreeSet<u32>| b@);
        proof {
            assert forall|i: int| 0 <= i < views.len() implies blocks.contains(#[trigger] views[i]) by {
                assert(blocks.contains(all[i]@));
            }
            assert forall|s: Set<u32>| blocks.contains(s) implies views.contains(s) by {
                let i = choose|i: int| 0 <= i < all.len() && #[trigger] all[i]@ == s;
                assert(views[i] == s);
            }
            assert(views.to_set() =~= blocks);
            assert forall|i: int, j: int| 0 <= i < j < views.len() implies views[i] != views[j] by {
                assert(all[i]@ != all[j]@);
            }
            views.unique_seq_to_set();
            assert(blocks =~= copies_so_far(blocks, views, o as int, 1, 0)) by {
                assert forall|s: Set<u32>| blocks.contains(s) implies copies_so_far(blocks, views, o as int, 1, 0).contains(s) by {
                    assert(copy_of(s, o as int, 0) =~= s);
                }
                assert forall|s: Set<u32>| copies_so_far(blocks, views, o as int, 1, 0).contains(s) implies blocks.contains(s) by {
                    let (k, b) = choose|k: int, b: Set<u32>|
                        0 <= k < 1 && #[trigger] blocks.contains(b) && s == #[trigger] copy_of(b, o as int, k);
                    assert(copy_of(b, o as int, 0) =~= b);
                }
            }
        }
        let mut sets = self.sets.duplicate();
        sets.reserve((p as usize - 1 + o as usize) * o as usize);
        let mut i: u32 = 1;
        while i < p
            invariant
                1 <= i <= p,
                o == self.omicron,
                p == self.phi,
                mn == self.min,
                p >= 2,
                blocks == self.blocks(),
                within(blocks, mn as int, o as int),
                forall|b: Set<u32>| #[trigger] blocks.contains(b) ==> b.len() > 0,
                mn + p * o <= u32::MAX + 1,
                p * o <= u32::MAX,
                views == all@.map_values(|b: BTreeSet<u32>| b@),
                views.len() == all.len(),
                forall|i: int| 0 <= i < views.len() ==> blocks.contains(#[trigger] views[i]),
                forall|s: Set<u32>| blocks.contains(s) ==> #[trigger] views.contains(s),
                forall|i: int, j: int| 0 <= i < j < views.len() ==> views[i] != views[j],
                blocks.finite(),
                blocks.len() == views.len(),
                batch_sets(sets) == copies_so_far(blocks, views, o as int, i as int, 0),
                batch_sets(sets).finite(),
                batch_sets(sets).len() == i * views.len(),
                uniform == (forall|b: Set<u32>| #[trigger] blocks.contains(b) ==> b.finite() && b.len() == p),
                uniform ==> forall|s: Set<u32>| #[trigger] batch_sets(sets).contains(s) ==> s.finite() && s.len() == p,
                forall|s: Set<u32>| #[trigger] batch_sets(sets).contains(s) ==> s.len() > 0,
            decreases p - i,
        {
            assert(i * o <= (p - 1) * o && (p - 1) * o + o == p * o) by (nonlinear_arith)
                requires
                    i < p,
            ;
            let offset = i * o;
            let mut t: usize = 0;
            while t < all.len()
                invariant
                    1 <= i < p,
                    offset == i * o,
                    i * o <= (p - 1) * o,
                    (p - 1) * o + o == p * o,
                    o == self.omicron,
                    p == self.phi,
                    mn == self.min,
                    p >= 2,
                    blocks == self.blocks(),
                    within(blocks, mn as int, o as int),
                    forall|b: Set<u32>| #[trigger] blocks.contains(b) ==> b.len() > 0,
                    mn + p * o <= u32::MAX + 1,
                    p * o <= u32::MAX,
                    views == all@.map_values(|b: BTreeSet<u32>| b@),
                    views.len() == all.len(),
                    0 <= t <= all.len(),
                    forall|i: int| 0 <= i < views.len() ==> blocks.contains(#[trigger] views[i]),
                    forall|s: Set<u32>| blocks.contains(s) ==> #[trigger] views.contains(s),
                    forall|i: int, j: int| 0 <= i < j < views.len() ==> views[i] != views[j],
                    blocks.finite(),
                    blocks.len() == views.len(),
                    batch_sets(sets) == copies_so_far(blocks, views, o as int, i as int, t as int),
                    batch_sets(sets).finite(),
                    batch_sets(sets).len() == i * views.len() + t,
                    uniform == (forall|b: Set<u32>| #[trigger] blocks.contains(b) ==> b.finite() && b.len() == p),
                    uniform ==> forall|s: Set<u32>| #[trigger] batch_sets(sets).contains(s) ==> s.finite() && s.len() == p,
                forall|s: Set<u32>| #[trigger] batch_sets(sets).contains(s) ==> s.len() > 0,
                decreases all.len() - t,
            {
                let ghost b = views[t as int];
                assert(b == all[t as int]@);
                assert(blocks.contains(b));
                proof {
                    assert forall|x: u32| #[trigger] all[t as int]@.contains(x) implies x + offset <= u32::MAX by {
                        assert(blocks.contains(b) && b.contains(x));
                    }
                }
                let shifted = raise_batch(&all[t], offset);
                proof {
                    assert(shifted@ == copy_of(b, o as int, i as int));
                    vstd::set::axiom_set_choose_len(b);
                    let y = b.choose();
                    assert forall|k: int, b2: Set<u32>| 0 <= k < i && blocks.contains(b2)
                        implies copy_of(b, o as int, i as int) != #[trigger] copy_of(b2, o as int, k) by {
                        lemma_copies_apart(blocks, b, b2, mn as int, o as int, p as int, k, i as int, y);
                    }
                    assert forall|u: int| 0 <= u < t implies copy_of(b, o as int, i as int) != #[trigger] copy_of(views[u], o as int, i as int) by {
                        if copy_of(b, o as int, i as int) == copy_of(views[u], o as int, i as int) {
                            lemma_copy_injective(blocks, b, views[u], mn as int, o as int, p as int, i as int);
                        }
                    }
                    assert(!batch_sets(sets).contains(shifted@));
                }
                sets.insert(shifted);
                proof {
                    assert(batch_sets(sets) =~= copies_so_far(blocks, views, o as int, i as int, t + 1)) by {
                        let old_sets = copies_so_far(blocks, views, o as int, i as int, t as int);
                        assert forall|s: Set<u32>| copies_so_far(blocks, views, o as int, i as int, t + 1).contains(s)
                            implies batch_sets(sets).contains(s) by {
                            if !old_sets.contains(s) {
                                let u = choose|u: int| 0 <= u < t + 1 && s == #[trigger] copy_of(views[u], o as int, i as int);
                                if u < t {
                                    assert(old_sets.contains(s));
                                }
                            }
                        }
                    }
                }
                t += 1;
            }
            proof {
                assert(batch_sets(sets) =~= copies_so_far(blocks, views, o as int, i + 1, 0)) by {
                    let cur = copies_so_far(blocks, views, o as int, i as int, all.len() as int);
                    assert forall|s: Set<u32>| cur.contains(s) implies copies_so_far(blocks, views, o as int, i + 1, 0).contains(s) by {
                        if exists|u: int| 0 <= u < all.len() && s == #[trigger] copy_of(views[u], o as int, i as int) {
                            let u = choose|u: int| 0 <= u < all.len() && s == #[trigger] copy_of(views[u], o as int, i as int);
                            assert(blocks.contains(views[u]));
                        }
                    }
                    assert forall|s: Set<u32>| copies_so_far(blocks, views, o as int, i + 1, 0).contains(s) implies cur.contains(s) by {
                        let (k, b) = choose|k: int, b: Set<u32>|
                            0 <= k < i + 1 && #[trigger] blocks.contains(b) && s == #[trigger] copy_of(b, o as int, k);
                        if k == i {
                            assert(views.contains(b));
                            let u = choose|u: int| 0 <= u < views.len() && views[u] == b;
                        }
                    }
                }
                assert(i * views.len() + views.len() == (i + 1) * views.len()) by (nonlinear_arith);
            }
            i += 1;
        }
        let mut a: u32 = 0;
        proof {
            assert(product_so_far(blocks, views, mn as int, o as int, p as int, 0, 0) =~= batch_sets(sets)) by {
                assert forall|s: Set<u32>| !#[trigger] transversals_so_far(mn as int, o as int, p as int, 0, 0).contains(s) by {}
            }
        }
        while a < o
            invariant
                0 <= a <= o,
                o == self.omicron,
                p == self.phi,
                mn == self.min,
                p >= 2,
                blocks == self.blocks(),
                within(blocks, mn as int, o as int),
                mn + p * o <= u32::MAX + 1,
                blocks.finite(),
                blocks.len() == views.len(),
                batch_sets(sets) == product_so_far(blocks, views, mn as int, o as int, p as int, a as int, 0),
                batch_sets(sets).finite(),
                batch_sets(sets).len() == p * views.len() + a * o,
                uniform ==> forall|s: Set<u32>| #[trigger] batch_sets(sets).contains(s) ==> s.finite() && s.len() == p,
                forall|s: Set<u32>| #[trigger] batch_sets(sets).contains(s) ==> s.len() > 0,
            decreases o - a,
        {
            let mut c: u32 = 0;
            while c < o
                invariant
                    0 <= a < o,
                    0 <= c <= o,
                    o == self.omicron,
                    p == self.phi,
                    mn == self.min,
                    p >= 2,
                    blocks == self.blocks(),
                    within(blocks, mn as int, o as int),
                    mn + p * o <= u32::MAX + 1,
                    batch_sets(sets) == product_so_far(blocks, views, mn as int, o as int, p as int, a as int, c as int),
                    batch_sets(sets).finite(),
                    batch_sets(sets).len() == p * views.len() + a * o + c,
                    uniform ==> forall|s: Set<u32>| #[trigger] batch_sets(sets).contains(s) ==> s.finite() && s.len() == p,
                forall|s: Set<u32>| #[trigger] batch_sets(sets).contains(s) ==> s.len() > 0,
                decreases o - c,
            {
                let set = transversal_batch(mn, o, p, a, c);
                proof {
                    lemma_transversal_new(blocks, views, mn as int, o as int, p as int, a as int, c as int);
                }
                sets.insert(set);
                proof {
                    let before = product_so_far(blocks, views, mn as int, o as int, p as int, a as int, c as int);
                    let after = product_so_far(blocks, views, mn as int, o as int, p as int, a as int, c + 1);
                    let t = transversal(mn as int, o as int, p as int, a as int, c as int);
                    assert(batch_sets(sets) =~= after) by {
                        assert(transversals_so_far(mn as int, o as int, p as int, a as int, c + 1).contains(t));
                        assert forall|s: Set<u32>| after.contains(s) implies before.insert(t).contains(s) by {
                            if transversals_so_far(mn as int, o as int, p as int, a as int, c + 1).contains(s) && s != t {
                                let (a2, c2) = choose|a2: int, c2: int|
                                    ((0 <= a2 < a && 0 <= c2 < o) || (a2 == a && 0 <= c2 < c + 1)) && s == #[trigger] transversal(
                                        mn as int, o as int, p as int, a2, c2);
                                assert(transversals_so_far(mn as int, o as int, p as int, a as int, c as int).contains(s));
                            }
                        }
                        assert forall|s: Set<u32>| before.contains(s) implies after.contains(s) by {
                            if transversals_so_far(mn as int, o as int, p as int, a as int, c as int).contains(s) {
                                let (a2, c2) = choose|a2: int, c2: int|
                                    ((0 <= a2 < a && 0 <= c2 < o) || (a2 == a && 0 <= c2 < c)) && s == #[trigger] transversal(
                                        mn as int, o as int, p as int, a2, c2);
                                assert(transversals_so_far(mn as int, o as int, p as int, a as int, c + 1).contains(s));
                            }
                        }
                    }
                }
                c += 1;
            }
            proof {
                let cur = product_so_far(blocks, views, mn as int, o as int, p as int, a as int, o as int);
                let next = product_so_far(blocks, views, mn as int, o as int, p as int, a + 1, 0);
                assert(cur =~= next) by {
                    assert forall|s: Set<u32>| transversals_so_far(mn as int, o as int, p as int, a as int, o as int).contains(s)
                        implies transversals_so_far(mn as int, o as int, p as int, a + 1, 0).contains(s) by {
                        let (a2, c2) = choose|a2: int, c2: int|
                            ((0 <= a2 < a && 0 <= c2 < o) || (a2 == a && 0 <= c2 < o)) && s == #[trigger] transversal(
                                mn as int, o as int, p as int, a2, c2);
                    }
                    assert forall|s: Set<u32>| transversals_so_far(mn as int, o as int, p as int, a + 1, 0).contains(s)
                        implies transversals_so_far(mn as int, o as int, p as int, a as int, o as int).contains(s) by {
                        let (a2, c2) = choose|a2: int, c2: int|
                            ((0 <= a2 < a + 1 && 0 <= c2 < o) || (a2 == a + 1 && 0 <= c2 < 0)) && s == #[trigger] transversal(
                                mn as int, o as int, p as int, a2, c2);
                    }
                }
                assert(a * o + o == (a + 1) * o) by (nonlinear_arith);
            }
            a += 1;
        }
        assert(o * p == p * o) by (nonlinear_arith);
        let r = Batches { omicron: o * p, phi: p, min: mn, max: self.max + (p - 1) * o, sets };
        proof {
            let prod = product_sets(blocks, mn as int, o as int, p as int);
            assert(batch_sets(sets) =~= prod) by {
                let tr = transversals_so_far(mn as int, o as int, p as int, o as int, 0);
                assert forall|s: Set<u32>| batch_sets(sets).contains(s) implies prod.contains(s) by {
                    if tr.contains(s) {
                        let (a2, c2) = choose|a2: int, c2: int|
                            ((0 <= a2 < o && 0 <= c2 < o) || (a2 == o && 0 <= c2 < 0)) && s == #[trigger] transversal(
                                mn as int, o as int, p as int, a2, c2);
                    } else {
                        assert(copies_so_far(blocks, views, o as int, p as int, 0).contains(s));
                        let (k, b) = choose|k: int, b: Set<u32>|
                            0 <= k < p && #[trigger] blocks.contains(b) && s == #[trigger] copy_of(b, o as int, k);
                    }
                }
                assert forall|s: Set<u32>| prod.contains(s) implies batch_sets(sets).contains(s) by {
                    if exists|k: int, b: Set<u32>| 0 <= k < p && #[trigger] blocks.contains(b) && s == #[trigger] copy_of(b, o as int, k) {
                        let (k, b) = choose|k: int, b: Set<u32>|
                            0 <= k < p && #[trigger] blocks.contains(b) && s == #[trigger] copy_of(b, o as int, k);
                        assert(copies_so_far(blocks, views, o as int, p as int, 0).contains(s));
                    } else {
                        let (a2, c2) = choose|a2: int, c2: int| 0 <= a2 < o && 0 <= c2 < o && s == #[trigger] transversal(
                            mn as int, o as int, p as int, a2, c2);
                        assert(tr.contains(s));
                    }
                }
            }
            assert forall|b: Set<u32>, x: u32|
                #![trigger r.blocks().contains(b), b.contains(x)]
                r.blocks().contains(b) && b.contains(x) implies r.min <= x < r.min + r.omicron by {
                lemma_product_range(blocks, mn as int, o as int, p as int, b, x);
            }
            if self.is_steiner_system() && copies_coprime(o as int, p as int) {
                let n = blocks.len() as int;
                assert(p * (p - 1) > 0) by (nonlinear_arith)
                    requires
                        p >= 2,
                ;
                lemma_fundamental_div_mod(o * (o - 1), p * (p - 1));
                assert(n * (p * (p - 1)) == o * (o - 1)) by (nonlinear_arith)
                    requires
                        n == (o * (o - 1)) / (p * (p - 1)),
                        (o * (o - 1)) % (p * (p - 1)) == 0,
                        o * (o - 1) == (p * (p - 1)) * ((o * (o - 1)) / (p * (p - 1))) + (o * (o - 1)) % (p * (p - 1)),
                ;
                lemma_product_header(o as int, p as int, mn as int, self.max as int, n);
                assert(uniform);
                assert(r.max == mn + p * o - 1) by (nonlinear_arith)
                    requires
                        r.max == self.max + (p - 1) * o,
                        o - 1 + mn == self.max,
                ;
                assert forall|s: Set<u32>| #[trigger] prod.contains(s) implies s.finite() && s.len() == p && forall|x: u32|
                    #[trigger] s.contains(x) ==> r.min <= x <= r.max by {
                    assert forall|x: u32| #[trigger] s.contains(x) implies r.min <= x <= r.max by {
                        lemma_product_range(blocks, mn as int, o as int, p as int, s, x);
                    }
                }
                lemma_product_meets_once(blocks, mn as int, o as int, p as int);
                assert(o * p == p * o) by (nonlinear_arith);
            }
        }
        r
    }
}

/// Element `x` moved by `s`, wrapping around the range of `u32`.
pub open spec fn moved(x: u32, s: int) -> u32 {
    ((x + s) % 0x1_0000_0000int) as u32
}

/// The elements of `b`, each moved by `s`.
pub open spec fn moved_set(b: Set<u32>, s: int) -> Set<u32> {
    Set::new(|y: u32| b.contains(moved(y, -s)))
}

/// The batches `blocks`, each moved by `s`.
pub open spec fn moved_sets(blocks: Set<Set<u32>>, s: int) -> Set<Set<u32>> {
    Set::new(|t: Set<u32>| blocks.contains(moved_set(t, -s)))
}

/// Moving by `s` and back by `-s` returns an element to itself.
proof fn lemma_moved_back(x: u32, s: int)
    ensures
        moved(moved(x, s), -s) == x,
{
    let m = 0x1_0000_0000int;
    lemma_fundamental_div_mod(x + s, m);
    let q = (x + s) / m;
    let y = (x + s) % m;
    assert(moved(x, s) == y);
    lemma_fundamental_div_mod_converse(y - s, m, -q, x as int);
}

/// Moving stays put in the range of `u32`: it adds `s` when the sum fits.
proof fn lemma_moved_plain(x: u32, s: int)
    requires
        0 <= x + s <= u32::MAX,
    ensures
        moved(x, s) == x + s,
{
    lemma_fundamental_div_mod_converse(x + s, 0x1_0000_0000int, 0, x + s);
}

/// `u32::wrapping_add_signed` moves an element.
proof fn lemma_wrapping_moves(x: u32, s: i32)
    ensures
        vstd::wrapping::u32_specs::wrapping_add_signed(x, s) == moved(x, s as int),
{
    let m = 0x1_0000_0000int;
    if x + s > u32::MAX {
        lemma_fundamental_div_mod_converse(x + s, m, 1, x + s - m);
    } else if x + s < 0 {
        lemma_fundamental_div_mod_converse(x + s, m, -1, x + s + m);
    } else {
        lemma_fundamental_div_mod_converse(x + s, m, 0, x + s);
    }
}

/// Moving an element is one to one.
proof fn lemma_moved_injective(x: u32, y: u32, s: int)
    requires
        moved(x, s) == moved(y, s),
    ensures
        x == y,
{
    lemma_moved_back(x, s);
    lemma_moved_back(y, s);
}

/// The position of the `u`-th element visited among `n`: ascending for a positive `s`,
/// descending for a negative one.
spec fn walk_pos(n: int, s: int, u: int) -> int {
    if s < 0 {
        n - 1 - u
    } else {
        u
    }
}

/// The elements of a batch moved by `s`, element by element, as the batch's walk gives them,
/// ascending for a positive `s` and descending for a negative one.
fn move_batch(set: &BTreeSet<u32>, s: i32) -> (r: BTreeSet<u32>)
    requires
        s != 0,
        forall|x: u32| #[trigger] set@.contains(x) ==> !set@.contains(moved(x, s as int)),
    ensures
        r@ == moved_set(set@, s as int),
        r@.finite(),
        set@.finite(),
        r@.len() == set@.len(),
{
    let elems = set_elements(set);
    let n = elems.len();
    let mut out = set.clone();
    let mut e: usize = 0;
    while e < n
        invariant
            0 <= e <= n,
            n == elems.len(),
            s != 0,
            elems@.to_set() == set@,
            elems@.no_duplicates(),
            set@.finite(),
            forall|x: u32| #[trigger] set@.contains(x) ==> !set@.contains(moved(x, s as int)),
            out@.finite(),
            out@.len() == set@.len(),
            forall|y: u32| #[trigger]
                out@.contains(y) <==> ((set@.contains(y) && !exists|u: int|
                    0 <= u < e && y == elems@[walk_pos(n as int, s as int, u)]) || exists|u: int|
                    0 <= u < e && y == moved(elems@[walk_pos(n as int, s as int, u)], s as int)),
        decreases n - e,
    {
        let k = if s < 0 { n - 1 - e } else { e };
        let x = elems[k];
        assert(set@.contains(x)) by {
            assert(elems@.to_set().contains(x));
        }
        proof {
            assert forall|u: int| 0 <= u < e implies x != elems@[walk_pos(n as int, s as int, u)] by {
                let ku = walk_pos(n as int, s as int, u);
                assert(ku != k);
            }
            assert forall|u: int| 0 <= u < e implies x != moved(elems@[walk_pos(n as int, s as int, u)], s as int) by {
                let ku = walk_pos(n as int, s as int, u);
                assert(elems@.to_set().contains(elems@[ku]));
            }
            assert(out@.contains(x));
        }
        let m = x.wrapping_add_signed(s);
        proof {
            lemma_wrapping_moves(x, s);
            assert(!set@.contains(m));
            assert forall|u: int| 0 <= u < e implies m != moved(elems@[walk_pos(n as int, s as int, u)], s as int) by {
                let ku = walk_pos(n as int, s as int, u);
                if m == moved(elems@[ku], s as int) {
                    lemma_moved_injective(x, elems@[ku], s as int);
                    assert(ku != k);
                }
            }
        }
        let ghost before = out@;
        out.remove(&x);
        assert(!out@.contains(m));
        out.insert(m);
        proof {
            assert forall|y: u32| #[trigger]
                out@.contains(y) <==> ((set@.contains(y) && !exists|u: int|
                    0 <= u < e + 1 && y == elems@[walk_pos(n as int, s as int, u)]) || exists|u: int|
                    0 <= u < e + 1 && y == moved(elems@[walk_pos(n as int, s as int, u)], s as int)) by {
                if y == x {
                    assert(0 <= e < e + 1 && y == elems@[walk_pos(n as int, s as int, e as int)]);
                }
                if y == m {
                    assert(0 <= e < e + 1 && y == moved(elems@[walk_pos(n as int, s as int, e as int)], s as int));
                }
                if exists|u: int| 0 <= u < e + 1 && y == elems@[walk_pos(n as int, s as int, u)] {
                    let u = choose|u: int| 0 <= u < e + 1 && y == elems@[walk_pos(n as int, s as int, u)];
                    if u < e {
                        assert(exists|u: int| 0 <= u < e && y == elems@[walk_pos(n as int, s as int, u)]);
                    }
                }
                if exists|u: int| 0 <= u < e + 1 && y == moved(elems@[walk_pos(n as int, s as int, u)], s as int) {
                    let u = choose|u: int| 0 <= u < e + 1 && y == moved(elems@[walk_pos(n as int, s as int, u)], s as int);
                    if u < e {
                        assert(exists|u: int| 0 <= u < e && y == moved(elems@[walk_pos(n as int, s as int, u)], s as int));
                    }
                }
            }
        }
        e += 1;
    }
    proof {
        assert forall|y: u32| out@.contains(y) <==> moved_set(set@, s as int).contains(y) by {
            lemma_moved_back(y, -s);
            let b = moved(y, -s);
            if set@.contains(y) {
                assert(elems@.to_set().contains(y));
                let k = choose|k: int| 0 <= k < n && elems@[k] == y;
                let u = if s < 0 { n - 1 - k } else { k };
                assert(0 <= u < n && y == elems@[walk_pos(n as int, s as int, u)]);
            }
            if moved_set(set@, s as int).contains(y) {
                assert(elems@.to_set().contains(b));
                let k = choose|k: int| 0 <= k < n && elems@[k] == b;
                let u = if s < 0 { n - 1 - k } else { k };
                assert(0 <= u < n && y == moved(elems@[walk_pos(n as int, s as int, u)], s as int));
            }
            if exists|u: int| 0 <= u < n && y == moved(elems@[walk_pos(n as int, s as int, u)], s as int) {
                let u = choose|u: int| 0 <= u < n && y == moved(elems@[walk_pos(n as int, s as int, u)], s as int);
                let ku = walk_pos(n as int, s as int, u);
                lemma_moved_back(elems@[ku], s as int);
                assert(elems@.to_set().contains(elems@[ku]));
            }
        }
        assert(out@ =~= moved_set(set@, s as int));
    }
    out
}

/// Moving a batch by `s` and back by `-s` returns it.
proof fn lemma_moved_set_back(b: Set<u32>, s: int)
    ensures
        moved_set(moved_set(b, s), -s) == b,
{
    assert forall|y: u32| moved_set(moved_set(b, s), -s).contains(y) <==> b.contains(y) by {
        lemma_moved_back(y, s);
    }
    assert(moved_set(moved_set(b, s), -s) =~= b);
}

/// `x + s`, which fits.
fn add_signed(x: u32, s: i32) -> (r: u32)
    requires
        0 <= x + s <= u32::MAX,
    ensures
        r == x + s,
{
    if s >= 0 {
        x + s as u32
    } else {
        x - (-(s as i64)) as u32
    }
}

impl Batches {
    /// The batches with every element moved by `shift`, and `min` and `max` with them. Each
    /// batch is moved element by element, in place, so no batch may hold two elements `shift`
    /// apart. Moving keeps a Steiner system one.
    pub fn shift(&self, shift: i32) -> (r: Batches)
        requires
            shift != 0 ==> 0 <= self.min + shift <= u32::MAX && 0 <= self.max + shift <= u32::MAX,
            shift != 0 ==> forall|b: Set<u32>, x: u32|
                #![trigger self.blocks().contains(b), b.contains(x)]
                self.blocks().contains(b) && b.contains(x) ==> !b.contains(moved(x, shift as int)),
        ensures
            r.omicron == self.omicron,
            r.phi == self.phi,
            r.min == self.min + shift,
            r.max == self.max + shift,
            r.blocks() == moved_sets(self.blocks(), shift as int),
            self.is_steiner_system() ==> r.is_steiner_system(),
    {
        let ghost blocks = self.blocks();
        if shift == 0 {
            let r = Batches {
                omicron: self.omicron,
                phi: self.phi,
                min: self.min,
                max: self.max,
                sets: self.sets.duplicate(),
            };
            proof {
                assert forall|t: Set<u32>| moved_sets(blocks, 0).contains(t) <==> blocks.contains(t) by {
                    assert forall|y: u32| moved_set(t, 0).contains(y) <==> t.contains(y) by {
                        lemma_moved_plain(y, 0);
                    }
                    assert(moved_set(t, 0) =~= t);
                }
                assert(moved_sets(blocks, 0) =~= blocks);
            }
            return r;
        }
        let max = add_signed(self.max, shift);
        let min = add_signed(self.min, shift);
        let ghost p = self.phi;
        let ghost uniform = forall|b: Set<u32>| #[trigger] blocks.contains(b) ==> b.finite() && b.len() == p;
        let mut new_sets = crate::fx_sets::hashset(self.len());
        let all = self.sets.to_vec();
        let ghost views = all@.map_values(|b: BTreeSet<u32>| b@);
        let mut k: usize = 0;
        while k < all.len()
            invariant
                0 <= k <= all.len(),
                shift != 0,
                blocks == self.blocks(),
                p == self.phi,
                views == all@.map_values(|b: BTreeSet<u32>| b@),
                forall|i: int| 0 <= i < all.len() ==> blocks.contains(#[trigger] all[i]@),
                forall|i: int, j: int| 0 <= i < j < all.len() ==> all[i]@ != all[j]@,
                forall|b: Set<u32>, x: u32|
                    #![trigger blocks.contains(b), b.contains(x)]
                    blocks.contains(b) && b.contains(x) ==> !b.contains(moved(x, shift as int)),
                batch_sets(new_sets) == Set::new(
                    |t: Set<u32>| exists|u: int| 0 <= u < k && t == #[trigger] moved_set(views[u], shift as int),
                ),
                batch_sets(new_sets).finite(),
                batch_sets(new_sets).len() == k,
                uniform == (forall|b: Set<u32>| #[trigger] blocks.contains(b) ==> b.finite() && b.len() == p),
                uniform ==> forall|t: Set<u32>| #[trigger] batch_sets(new_sets).contains(t) ==> t.finite() && t.len() == p,
            decreases all.len() - k,
        {
            assert(blocks.contains(all[k as int]@));
            let set = move_batch(&all[k], shift);
            proof {
                assert(views[k as int] == all[k as int]@);
                assert forall|u: int| 0 <= u < k implies set@ != #[trigger] moved_set(views[u], shift as int) by {
                    if set@ == moved_set(views[u], shift as int) {
                        lemma_moved_set_back(all[k as int]@, shift as int);
                        lemma_moved_set_back(views[u], shift as int);
                        assert(views[u] == all[u]@);
                    }
                }
            }
            new_sets.insert(set);
            proof {
                assert(batch_sets(new_sets) =~= Set::new(
                    |t: Set<u32>| exists|u: int| 0 <= u < k + 1 && t == #[trigger] moved_set(views[u], shift as int),
                )) by {
                    assert(exists|u: int| 0 <= u < k + 1 && set@ == #[trigger] moved_set(views[u], shift as int)) by {
                        assert(set@ == moved_set(views[k as int], shift as int));
                    }
                }
            }
            k += 1;
        }
        let r = Batches { omicron: self.omicron, phi: self.phi, min, max, sets: new_sets };
        proof {
            let built = batch_sets(new_sets);
            assert(built =~= moved_sets(blocks, shift as int)) by {
                assert forall|t: Set<u32>| built.contains(t) implies moved_sets(blocks, shift as int).contains(t) by {
                    let u = choose|u: int| 0 <= u < all.len() && t == #[trigger] moved_set(views[u], shift as int);
                    lemma_moved_set_back(views[u], shift as int);
                    assert(views[u] == all[u]@);
                }
                assert forall|t: Set<u32>| moved_sets(blocks, shift as int).contains(t) implies built.contains(t) by {
                    let b = moved_set(t, -shift);
                    let i = choose|i: int| 0 <= i < all.len() && #[trigger] all[i]@ == b;
                    lemma_moved_set_back(t, -shift);
                    assert(views[i] == b);
                    assert(moved_set(views[i], shift as int) == t);
                }
            }
            if self.is_steiner_system() {
                assert(uniform);
                assert forall|b: Set<u32>| blocks.contains(b) implies exists|i: int| 0 <= i < all.len() && #[trigger] all[i]@ == b by {}
                assert(blocks.len() == all.len()) by {
                    assert(views.to_set() =~= blocks) by {
                        assert forall|b: Set<u32>| blocks.contains(b) implies views.contains(b) by {
                            let i = choose|i: int| 0 <= i < all.len() && #[trigger] all[i]@ == b;
                            assert(views[i] == b);
                        }
                        assert forall|b: Set<u32>| views.contains(b) implies blocks.contains(b) by {
                            let i = choose|i: int| 0 <= i < views.len() && views[i] == b;
                            assert(views[i] == all[i]@);
                        }
                    }
                    assert forall|i: int, j: int| 0 <= i < views.len() && 0 <= j < views.len() && i != j implies views[i] != views[j] by {
                        if i < j {
                            assert(all[i]@ != all[j]@);
                        } else {
                            assert(all[j]@ != all[i]@);
                        }
                    }
                    views.unique_seq_to_set();
                }
                assert forall|t: Set<u32>| #[trigger] built.contains(t) implies t.finite() && t.len() == p && forall|y: u32|
                    #[trigger] t.contains(y) ==> r.min <= y <= r.max by {
                    assert forall|y: u32| #[trigger] t.contains(y) implies r.min <= y <= r.max by {
                        let b = moved_set(t, -shift);
                        let x = moved(y, -shift);
                        assert(blocks.contains(b) && b.contains(x));
                        lemma_moved_back(y, -shift);
                        lemma_moved_plain(x, shift as int);
                    }
                }
                assert forall|t1: Set<u32>, t2: Set<u32>, x: u32, y: u32|
                    #![trigger built.contains(t1), built.contains(t2), t1.contains(x), t2.contains(y)]
                    built.contains(t1) && built.contains(t2) && t1 != t2 && t1.contains(x) && t1.contains(y)
                        && t2.contains(x) && t2.contains(y) implies x == y by {
                    let b1 = moved_set(t1, -shift);
                    let b2 = moved_set(t2, -shift);
                    lemma_moved_set_back(t1, -shift);
                    lemma_moved_set_back(t2, -shift);
                    let x0 = moved(x, -shift);
                    let y0 = moved(y, -shift);
                    assert(blocks.contains(b1) && blocks.contains(b2) && b1.contains(x0) && b2.contains(y0));
                    assert(b1.contains(y0) && b2.contains(x0));
                    lemma_moved_injective(x, y, -shift);
                }
            }
        }
        r
    }
}

/// Moving the batches by `s` and then by `-s` gives them back: `shift(-s)` undoes
/// `shift(s)`.
pub proof fn law_shift_back(blocks: Set<Set<u32>>, s: int)
    ensures
        moved_sets(moved_sets(blocks, s), -s) == blocks,
{
    let once = moved_sets(blocks, s);
    assert forall|t: Set<u32>| moved_sets(once, -s).contains(t) <==> blocks.contains(t) by {
        let u = moved_set(t, s);
        assert(-(-s) == s);
        assert(moved_sets(once, -s).contains(t) == once.contains(u));
        lemma_moved_set_back(t, s);
        assert(once.contains(u) == blocks.contains(moved_set(u, -s)));
    }
    assert(moved_sets(moved_sets(blocks, s), -s) =~= blocks);
}

} // verus!
