//! A hash set of id numbers, for the few ids that are too large for a dense array.

use vstd::prelude::*;

verus! {

/// A set of id numbers, kept in a `hashbrown::HashSet`.
#[verifier::external_body]
#[derive(Debug)]
pub struct OverflowSet {
    numbers: hashbrown::HashSet<u64>,
}

/// The numbers that an overflow set holds.
pub uninterp spec fn numbers(set: OverflowSet) -> Set<u64>;

impl OverflowSet {
    /// `hashbrown::HashSet::new`: the new set holds nothing.
    #[verifier::external_body]
    pub(crate) fn new() -> (set: Self)
        ensures
            numbers(set) == Set::<u64>::empty(),
    {
        OverflowSet { numbers: hashbrown::HashSet::new() }
    }

    /// `hashbrown::HashSet::insert`: the number is in the set afterwards, nothing else of the
    /// set changes, and the result says whether the number was missing before. A table whose
    /// numbers, of eight bytes each, would take more than `isize::MAX` bytes is never made, so
    /// the set never holds more of them. That the call does not return where no larger table can
    /// be made, for that bound or for want of memory, is left unsaid.
    #[verifier::external_body]
    pub(crate) fn insert(&mut self, number: u64) -> (inserted: bool)
        ensures
            numbers(*final(self)) == numbers(*old(self)).insert(number),
            inserted == !numbers(*old(self)).contains(number),
            8 * numbers(*final(self)).len() <= isize::MAX,
    {
        self.numbers.insert(number)
    }

    /// `hashbrown::HashSet::contains`: whether the number is in the set.
    #[verifier::external_body]
    pub(crate) fn contains(&self, number: u64) -> (present: bool)
        ensures
            present == numbers(*self).contains(number),
    {
        self.numbers.contains(&number)
    }

    /// `hashbrown::HashSet::clear`: the set holds nothing afterwards.
    #[verifier::external_body]
    pub(crate) fn clear(&mut self)
        ensures
            numbers(*final(self)) == Set::<u64>::empty(),
    {
        self.numbers.clear()
    }

    /// `hashbrown::HashSet::is_empty`: whether the set holds nothing.
    #[verifier::external_body]
    pub(crate) fn holds_nothing(&self) -> (empty: bool)
        ensures
            empty == (numbers(*self) == Set::<u64>::empty()),
    {
        self.numbers.is_empty()
    }

    /// Return whether the set is empty.
    pub fn is_empty(&self) -> (empty: bool)
        ensures
            empty == (numbers(*self) == Set::<u64>::empty()),
    {
        self.holds_nothing()
    }
}

} // verus!
