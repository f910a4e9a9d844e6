//! Handles to witnesses allocated in a composer.

use vstd::prelude::*;

verus! {

/// Allocated witness in the constraint system.
#[derive(Copy, Clone, Debug, PartialEq, Eq, Hash)]
pub struct Witness {
    index: usize,
}

impl Witness {
    /// The witness reserved for the constant one.
    pub fn one() -> (r: Witness)
        ensures
            r.index() == 1,
    {
        Witness { index: 1 }
    }

    /// The witness reserved for the constant zero.
    pub fn zero() -> (r: Witness)
        ensures
            r.index() == 0,
    {
        Witness { index: 0 }
    }

    /// The handle of the witness at `index`.
    pub fn new(index: usize) -> (r: Witness)
        ensures
            r.index() == index,
    {
        Witness { index }
    }

    /// Index of the allocated witness in the composer.
    pub closed spec fn spec_index(&self) -> usize {
        self.index
    }

    /// Index of the allocated witness in the composer.
    #[verifier::when_used_as_spec(spec_index)]
    pub fn index(&self) -> (r: usize)
        ensures
            r == self.spec_index(),
    {
        self.index
    }
}

/// Witnesses are determined by their index.
pub broadcast proof fn lemma_witness_ext(a: Witness, b: Witness)
    ensures
        #[trigger] a.index() == #[trigger] b.index() ==> a == b,
{
}

impl Default for Witness {
    fn default() -> (r: Witness)
        ensures
            r.index() == 0,
    {
        Witness::zero()
    }
}

} // verus!
