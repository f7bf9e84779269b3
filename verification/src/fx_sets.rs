use vstd::prelude::*;
use std::collections::BTreeSet;
use hashbrown::HashSet;
use rustc_hash::FxBuildHasher;

verus! {

/// The hash builder that every set of batches is built with.
pub type BatchHasher = FxBuildHasher;

/// A `hashbrown` set of batches, hashed with `rustc_hash`'s `FxBuildHasher`, each batch an
/// ordered set of elements. The set lies in a private field that Verus does not read; what
/// it holds is `batch_sets`.
#[verifier::external_body]
#[derive(Debug)]
pub struct BatchSet {
    inner: HashSet<BTreeSet<u32>, BatchHasher>,
}

/// What a set of batches holds: each batch as the set of its elements.
pub uninterp spec fn batch_sets(s: BatchSet) -> Set<Set<u32>>;

/// Calls `hashbrown::HashSet::with_capacity_and_hasher` with an `FxBuildHasher`; the set it
/// returns is empty. The capacity only sizes the allocation.
#[verifier::external_body]
pub fn hashset(capacity: usize) -> (r: BatchSet)
    ensures
        batch_sets(r) == Set::<Set<u32>>::empty(),
{
    BatchSet { inner: HashSet::with_capacity_and_hasher(capacity, FxBuildHasher) }
}

impl BatchSet {
    /// Calls `hashbrown::HashSet::insert`: the batch is in the set afterwards, nothing else
    /// changes, and the result tells whether it was absent before. Two batches are the same
    /// entry exactly when they hold the same elements, as `BTreeSet`'s `Eq` says.
    #[verifier::external_body]
    pub(crate) fn insert(&mut self, batch: BTreeSet<u32>) -> (r: bool)
        ensures
            batch_sets(*final(self)) == batch_sets(*old(self)).insert(batch@),
            r == !batch_sets(*old(self)).contains(batch@),
    {
        self.inner.insert(batch)
    }

    /// Calls `hashbrown::HashSet::len`: the number of batches.
    #[verifier::external_body]
    pub(crate) fn len(&self) -> (r: usize)
        ensures
            r == batch_sets(*self).len(),
    {
        self.inner.len()
    }

    /// Walks the set with `hashbrown::HashSet::iter` and clones each batch: every batch
    /// comes out once. The order is the order of the walk, which is left unsaid.
    #[verifier::external_body]
    pub(crate) fn to_vec(&self) -> (r: Vec<BTreeSet<u32>>)
        ensures
            r.len() == batch_sets(*self).len(),
            forall|i: int| 0 <= i < r.len() ==> batch_sets(*self).contains(#[trigger] r[i]@),
            forall|s: Set<u32>|
                batch_sets(*self).contains(s) ==> exists|i: int| 0 <= i < r.len() && #[trigger] r[i]@ == s,
            forall|i: int, j: int| 0 <= i < j < r.len() ==> r[i]@ != r[j]@,
    {
        self.inner.iter().cloned().collect()
    }

    /// Calls `Clone::clone` on the `hashbrown::HashSet`: the copy holds the same batches.
    #[verifier::external_body]
    pub(crate) fn duplicate(&self) -> (r: BatchSet)
        ensures
            batch_sets(r) == batch_sets(*self),
    {
        BatchSet { inner: self.inner.clone() }
    }

    /// Calls `hashbrown::HashSet::reserve`, which sizes the allocation and leaves the batches
    /// as they are.
    #[verifier::external_body]
    pub(crate) fn reserve(&mut self, additional: usize)
        ensures
            batch_sets(*final(self)) == batch_sets(*old(self)),
    {
        self.inner.reserve(additional)
    }
}

/// A `hashbrown` set of pairs of elements, hashed with `rustc_hash`'s `FxBuildHasher`. The
/// set lies in a private field that Verus does not read; what it holds is `pair_set`.
#[verifier::external_body]
pub struct PairSet {
    inner: HashSet<(u32, u32), BatchHasher>,
}

/// What a set of pairs holds.
pub uninterp spec fn pair_set(s: PairSet) -> Set<(u32, u32)>;

impl PairSet {
    /// Calls `hashbrown::HashSet::with_capacity_and_hasher` with an `FxBuildHasher`; the set
    /// it returns is empty.
    #[verifier::external_body]
    pub(crate) fn with_capacity(capacity: usize) -> (r: PairSet)
        ensures
            pair_set(r) == Set::<(u32, u32)>::empty(),
    {
        PairSet { inner: HashSet::with_capacity_and_hasher(capacity, FxBuildHasher) }
    }

    /// Calls `hashbrown::HashSet::insert`: the pair is in the set afterwards, nothing else
    /// changes, and the result tells whether it was absent before.
    #[verifier::external_body]
    pub(crate) fn insert(&mut self, pair: (u32, u32)) -> (r: bool)
        ensures
            pair_set(*final(self)) == pair_set(*old(self)).insert(pair),
            r == !pair_set(*old(self)).contains(pair),
    {
        self.inner.insert(pair)
    }
}

} // verus!
