//! The ids by which vectors are known to an index.

use vstd::prelude::*;

verus! {

/// An id of a vector in an index.
///
/// Every id has a number, and no two ids have the same number. The number of an id is its
/// position in the dense arrays of the index, where it has one.
pub trait VectorId: Copy {
    /// The number of the id.
    spec fn number(self) -> u64;

    /// Ids with the same number are the same id.
    proof fn lemma_number_injective(a: Self, b: Self)
        requires
            a.number() == b.number(),
        ensures
            a == b,
    ;

    /// The number of the id, as a value.
    fn into_u64(self) -> (number: u64)
        ensures
            number == self.number(),
    ;
}

impl VectorId for u32 {
    open spec fn number(self) -> u64 {
        self as u64
    }

    proof fn lemma_number_injective(a: Self, b: Self) {
    }

    fn into_u64(self) -> (number: u64)
        ensures
            number == self,
    {
        self as u64
    }
}

impl VectorId for u64 {
    open spec fn number(self) -> u64 {
        self
    }

    proof fn lemma_number_injective(a: Self, b: Self) {
    }

    fn into_u64(self) -> (number: u64)
        ensures
            number == self,
    {
        self
    }
}

/// The number of an id that is an integer is that integer.
pub proof fn law_number_of_integer(short: u32, long: u64)
    ensures
        short.number() == short,
        long.number() == long,
{
}

} // verus!
