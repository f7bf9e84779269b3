use vstd::prelude::*;
use vstd::arithmetic::div_mod::lemma_fundamental_div_mod_converse;
use std::collections::BTreeSet;
use crate::batches::{col_block, row_block, Batches};
use crate::fx_sets::{batch_sets, hashset};
use crate::number_theory::is_prime;
use crate::planes::{block_set, BlockId};

verus! {

// The parts of an affine plane of prime order `phi` that a generator can hand to separate
// workers: the rows, a family of slope lines over rows of `phi - 1`, and the columns; and
// the collection of what the workers send back into one value.

/// The element in column `c` of the line that starts in row `ii` and climbs `i` rows per
/// column, the rows taken modulo `w`, on a grid with rows of `w` elements after `offset`.
pub open spec fn climb_elem(offset: int, w: int, i: int, ii: int, c: int) -> int {
    offset + ((ii + (c - 1) * i - 1) % w + 1) * w + c
}

/// Element `offset + i` and, in each column `c` from `1` to `w`, `climb_elem`.
pub open spec fn climb_set(offset: int, w: int, i: int, ii: int) -> Set<u32> {
    Set::new(
        |x: u32|
            x == offset + i || exists|c: int| 1 <= c <= w && x == #[trigger] climb_elem(offset, w, i, ii, c),
    )
}

/// The set `climb_set(offset, w, i, ii)`.
fn climb_block(offset: u32, w: u32, i: u32, ii: u32) -> (b: BTreeSet<u32>)
    requires
        1 <= i < w,
        1 <= ii <= w,
        offset + (w + 1) * w <= u32::MAX,
    ensures
        b@ == climb_set(offset as int, w as int, i as int, ii as int),
{
    assert((w + 1) * w >= w + 1) by (nonlinear_arith)
        requires
            w >= 1,
    ;
    let mut set = BTreeSet::new();
    set.insert(offset + i);
    let mut c: u32 = 1;
    while c <= w
        invariant
            1 <= i < w,
            1 <= ii <= w,
            offset + (w + 1) * w <= u32::MAX,
            w + 1 <= u32::MAX,
            1 <= c <= w + 1,
            forall|x: u32|
                #[trigger] set@.contains(x) <==> (x == offset + i || exists|d: int|
                    1 <= d < c && x == #[trigger] climb_elem(offset as int, w as int, i as int, ii as int, d)),
        decreases w + 1 - c,
    {
        assert(ii + (c - 1) * i <= (w + 1) * w) by (nonlinear_arith)
            requires
                1 <= c <= w,
                1 <= i < w,
                1 <= ii <= w,
        ;
        let row = ((ii + (c - 1) * i - 1) % w) + 1;
        assert(row * w + c <= (w + 1) * w) by (nonlinear_arith)
            requires
                1 <= row <= w,
                1 <= c <= w,
        ;
        let x_new = offset + row * w + c;
        assert(x_new == climb_elem(offset as int, w as int, i as int, ii as int, c as int));
        set.insert(x_new);
        c += 1;
    }
    assert(set@ =~= climb_set(offset as int, w as int, i as int, ii as int));
    set
}

impl Batches {
    /// The rows of the affine plane of order `phi` on the `phi * phi` elements from `offset`:
    /// row `r`, for `r` from `0` to `phi`, is element `offset` and the `phi - 1` elements of
    /// grid row `r`.
    pub fn par_phi_2_rows(phi: u32, offset: u32) -> (r: Vec<BTreeSet<u32>>)
        requires
            is_prime(phi as int),
            phi * phi - 1 + offset <= u32::MAX,
        ensures
            r@.len() == phi + 1,
            forall|k: int|
                0 <= k <= phi ==> (#[trigger] r@[k])@ == block_set(
                    offset as int,
                    phi - 1,
                    phi as int,
                    BlockId::Row(k),
                ),
    {
        let w = phi - 1;
        assert((phi + 1) * w == phi * phi - 1) by (nonlinear_arith)
            requires
                w == phi - 1,
        ;
        assert(phi < u32::MAX) by (nonlinear_arith)
            requires
                phi >= 2,
                phi * phi - 1 <= u32::MAX,
        ;
        let mut out: Vec<BTreeSet<u32>> = Vec::new();
        let mut k: u32 = 0;
        while k <= phi
            invariant
                is_prime(phi as int),
                w == phi - 1,
                offset + (phi + 1) * w <= u32::MAX,
                phi < u32::MAX,
                k <= phi + 1,
                out@.len() == k,
                forall|j: int|
                    0 <= j < k ==> (#[trigger] out@[j])@ == block_set(
                        offset as int,
                        phi - 1,
                        phi as int,
                        BlockId::Row(j),
                    ),
            decreases phi + 1 - k,
        {
            out.push(row_block(offset, w, phi, k));
            k += 1;
        }
        out
    }

    /// The columns of the affine plane of order `phi`: column `j`, for `j` from `1` to
    /// `phi - 1`, is the element of grid column `j` in each of the rows `1` to `phi`.
    pub fn par_phi_2_columns(phi: u32, offset: u32) -> (r: Vec<BTreeSet<u32>>)
        requires
            is_prime(phi as int),
            phi * phi - 1 + offset <= u32::MAX,
        ensures
            r@.len() == phi - 1,
            forall|k: int|
                0 <= k < phi - 1 ==> (#[trigger] r@[k])@ == block_set(
                    offset as int,
                    phi - 1,
                    phi as int,
                    BlockId::Col(k + 1),
                ),
    {
        let w = phi - 1;
        assert((phi + 1) * w == phi * phi - 1) by (nonlinear_arith)
            requires
                w == phi - 1,
        ;
        let mut out: Vec<BTreeSet<u32>> = Vec::new();
        let mut j: u32 = 1;
        while j < phi
            invariant
                is_prime(phi as int),
                w == phi - 1,
                offset + (phi + 1) * w <= u32::MAX,
                1 <= j <= phi,
                out@.len() == j - 1,
                forall|k: int|
                    0 <= k < j - 1 ==> (#[trigger] out@[k])@ == block_set(
                        offset as int,
                        phi - 1,
                        phi as int,
                        BlockId::Col(k + 1),
                    ),
            decreases phi - j,
        {
            out.push(col_block(offset, w, phi, j));
            j += 1;
        }
        out
    }

    /// The climbing lines over rows of `w = phi - 1`: for `i` from `1` to `phi - 2` and `ii`
    /// from `1` to `phi - 1`, in that order, `climb_set(offset, w, i, ii)`.
    pub fn par_phi_2_climbs(phi: u32, offset: u32) -> (r: Vec<BTreeSet<u32>>)
        requires
            phi >= 2,
            phi * phi - 1 + offset <= u32::MAX,
        ensures
            r@.len() == (phi - 2) * (phi - 1),
            forall|k: int|
                0 <= k < r@.len() ==> (#[trigger] r@[k])@ == climb_set(
                    offset as int,
                    phi - 1,
                    k / (phi - 1) + 1,
                    k % (phi - 1) + 1,
                ),
    {
        let w = phi - 1;
        assert((w + 1) * w <= phi * phi - 1) by (nonlinear_arith)
            requires
                w == phi - 1,
                phi >= 2,
        ;
        let mut out: Vec<BTreeSet<u32>> = Vec::new();
        let mut i: u32 = 1;
        while i < w
            invariant
                phi >= 2,
                w == phi - 1,
                offset + (w + 1) * w <= u32::MAX,
                1 <= i <= w,
                out@.len() == (i - 1) * w,
                forall|k: int|
                    0 <= k < out@.len() ==> (#[trigger] out@[k])@ == climb_set(
                        offset as int,
                        w as int,
                        k / (w as int) + 1,
                        k % (w as int) + 1,
                    ),
            decreases w - i,
        {
            let mut ii: u32 = 1;
            while ii <= w
                invariant
                    phi >= 2,
                    w == phi - 1,
                    offset + (w + 1) * w <= u32::MAX,
                    1 <= i < w,
                    1 <= ii <= w + 1,
                    out@.len() == (i - 1) * w + (ii - 1),
                    forall|k: int|
                        0 <= k < out@.len() ==> (#[trigger] out@[k])@ == climb_set(
                            offset as int,
                            w as int,
                            k / (w as int) + 1,
                            k % (w as int) + 1,
                        ),
                decreases w + 1 - ii,
            {
                let b = climb_block(offset, w, i, ii);
                proof {
                    let k = (i - 1) * w + (ii - 1);
                    lemma_fundamental_div_mod_converse(k, w as int, (i - 1) as int, (ii - 1) as int);
                }
                out.push(b);
                ii += 1;
            }
            assert((i - 1) * w + w == i * w) by (nonlinear_arith);
            i += 1;
        }
        assert((w - 1) * w == (phi - 2) * (phi - 1));
        out
    }

    /// The value that the affine plane's generator returns from the batches its workers sent:
    /// `phi * phi` elements from `offset`, batches of `phi`, and the batches as sent, no two of
    /// them the same.
    pub fn par_phi_2_collect(phi: u32, offset: u32, received: Vec<BTreeSet<u32>>) -> (r: Batches)
        requires
            phi >= 1,
            phi * phi <= u32::MAX,
            phi * phi - 1 + offset <= u32::MAX,
            forall|a: int, b: int| 0 <= a < b < received@.len() ==> received@[a]@ != received@[b]@,
        ensures
            r.omicron == phi * phi,
            r.phi == phi,
            r.min == offset,
            r.max == phi * phi - 1 + offset,
            forall|s: Set<u32>|
                #[trigger] r.blocks().contains(s) <==> exists|k: int|
                    0 <= k < received@.len() && s == (#[trigger] received@[k])@,
    {
        let omicron = phi * phi;
        assert(omicron >= 1) by (nonlinear_arith)
            requires
                omicron == phi * phi,
                phi >= 1,
        ;
        let mut sets = hashset(received.len());
        let mut k: usize = 0;
        while k < received.len()
            invariant
                0 <= k <= received@.len(),
                forall|s: Set<u32>|
                    #[trigger] batch_sets(sets).contains(s) <==> exists|j: int|
                        0 <= j < k && s == (#[trigger] received@[j])@,
            decreases received@.len() - k,
        {
            let b = received[k].clone();
            sets.insert(b);
            k += 1;
        }
        Batches { omicron, phi, min: offset, max: omicron - 1 + offset, sets }
    }
}

} // verus!
