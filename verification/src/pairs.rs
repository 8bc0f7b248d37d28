//! Pairs of particles without an order, and the set of the pairs seen.

use vstd::prelude::*;
use crate::handle::Handle;

verus! {

/// Two handles, the smaller first: the same pair whichever way round it was
/// made.
#[derive(Clone, Copy, PartialEq, Eq, Debug)]
pub struct UnorderedEntitiesPair {
    pub entities: (Handle, Handle),
}

/// The pair of `e1` and `e2` with the smaller handle first.
pub open spec fn unordered(e1: Handle, e2: Handle) -> (Handle, Handle) {
    if e1.bits() < e2.bits() {
        (e1, e2)
    } else {
        (e2, e1)
    }
}

impl UnorderedEntitiesPair {
    /// The pair of `e1` and `e2`.
    pub fn new(e1: Handle, e2: Handle) -> (pair: UnorderedEntitiesPair)
        ensures
            pair.entities == unordered(e1, e2),
    {
        if e1.to_bits() < e2.to_bits() {
            UnorderedEntitiesPair { entities: (e1, e2) }
        } else {
            UnorderedEntitiesPair { entities: (e2, e1) }
        }
    }
}

/// A pair does not depend on the order in which its handles are given.
pub proof fn lemma_unordered_symmetric(e1: Handle, e2: Handle)
    ensures
        unordered(e1, e2) == unordered(e2, e1),
{
    if e1.bits() == e2.bits() {
        Handle::lemma_bits_injective(e1, e2);
    }
}

/// The pairs seen so far, in a hash set of the engine.
#[verifier::external_body]
pub struct PairSet {
    inner: bevy::utils::HashSet<(u64, u64)>,
}

/// The pairs that a set holds.
pub uninterp spec fn pair_set_contents(set: PairSet) -> Set<(u64, u64)>;

impl PairSet {
    /// `HashSet::default` of `bevy::utils`: a set that holds nothing.
    #[verifier::external_body]
    pub(crate) fn new() -> (set: PairSet)
        ensures
            pair_set_contents(set) == Set::<(u64, u64)>::empty(),
    {
        PairSet { inner: bevy::utils::HashSet::default() }
    }

    /// `HashSet::contains`: whether the set holds the pair `(a, b)`.
    #[verifier::external_body]
    pub(crate) fn contains(&self, a: u64, b: u64) -> (found: bool)
        ensures
            found == pair_set_contents(*self).contains((a, b)),
    {
        self.inner.contains(&(a, b))
    }

    /// `HashSet::insert`: afterwards the set holds `(a, b)` besides what it
    /// held; the result says whether the pair was new.
    #[verifier::external_body]
    pub(crate) fn insert(&mut self, a: u64, b: u64) -> (fresh: bool)
        ensures
            pair_set_contents(*final(self)) == pair_set_contents(*old(self)).insert((a, b)),
            fresh == !pair_set_contents(*old(self)).contains((a, b)),
    {
        self.inner.insert((a, b))
    }
}

} // verus!
