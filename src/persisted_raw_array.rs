//! A raw array: a block read as a run of values `T`, with no count stored.
use vstd::prelude::*;

use crate::block::{zeros, Block, BlockError};
use crate::persist::Persist;

verus! {

/// A block used as room for values `T`.
#[derive(Debug)]
pub struct PersistedRawArray<T: Persist> {
    block: Block,
    _kind: std::marker::PhantomData<T>,
}

impl<T: Persist> PersistedRawArray<T> {
    /// The bytes of the block.
    pub closed spec fn bytes(&self) -> Seq<u8> {
        self.block@
    }

    /// Creates a raw array over `block`; values start at its first byte.
    pub fn new(block: Block) -> (r: PersistedRawArray<T>)
        ensures
            r.bytes() == block@,
    {
        PersistedRawArray { block, _kind: std::marker::PhantomData }
    }

    /// Gets the capacity of the raw array, in bytes.
    pub fn capacity(&self) -> (r: usize)
        ensures
            r == self.bytes().len(),
    {
        self.block.size()
    }

    /// Grows the block so that at least `additional` more values `T` fit; the bytes stay.
    pub fn reserve(&mut self, additional: usize) -> (r: Result<(), BlockError>)
        requires
            old(self).bytes().len() + additional * T::spec_size() <= usize::MAX,
        ensures
            r is Ok ==> final(self).bytes() == old(self).bytes() + zeros((additional * T::spec_size()) as nat),
            r is Err ==> final(self).bytes() == old(self).bytes() && (r matches Err(BlockError::IoError(_))),
    {
        proof {
            T::lemma_size();
            assert(additional * T::spec_size() >= 0) by (nonlinear_arith)
                requires
                    T::spec_size() >= 1,
            ;
        }
        self.block.reserve(additional * T::size())
    }
}

} // verus!
