//! The set of rails that are taken, kept in a bit set.

use vstd::prelude::*;

verus! {

/// A set of rail numbers, held by a `bit_set::BitSet`.
#[verifier::external_body]
pub struct BitSet {
    inner: bit_set::BitSet,
}

/// The numbers that the set holds.
pub uninterp spec fn members(set: BitSet) -> Set<usize>;

impl BitSet {
    /// An empty set.
    pub fn new() -> (set: BitSet)
        ensures
            members(set) == Set::<usize>::empty(),
    {
        BitSet::with_capacity(0)
    }

    /// An empty set with room for numbers below `nbits`, by `bit_set::BitSet::with_capacity`, which
    /// hands out a set without a number in it.
    #[verifier::external_body]
    pub(crate) fn with_capacity(nbits: usize) -> (set: BitSet)
        ensures
            members(set) == Set::<usize>::empty(),
    {
        BitSet { inner: bit_set::BitSet::with_capacity(nbits) }
    }

    /// Whether `value` is in the set, by `bit_set::BitSet::contains`, which says just that.
    #[verifier::external_body]
    pub(crate) fn contains(&self, value: usize) -> (found: bool)
        ensures
            found == members(*self).contains(value),
    {
        self.inner.contains(value)
    }

    /// Adds `value` to the set, by `bit_set::BitSet::insert`, which keeps what was in it and says
    /// whether `value` is new to it. The set has one bit for every number up to its greatest, so
    /// `usize::MAX` is left out.
    #[verifier::external_body]
    pub(crate) fn insert(&mut self, value: usize) -> (added: bool)
        requires
            value < usize::MAX,
        ensures
            members(*final(self)) == members(*old(self)).insert(value),
            added == !members(*old(self)).contains(value),
    {
        self.inner.insert(value)
    }

    /// Takes every number out of the set, by `bit_set::BitSet::reset`.
    #[verifier::external_body]
    pub(crate) fn reset(&mut self)
        ensures
            members(*final(self)) == Set::<usize>::empty(),
    {
        self.inner.reset()
    }
}

} // verus!
