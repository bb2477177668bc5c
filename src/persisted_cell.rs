//! A single value held in a block.
use vstd::prelude::*;

use crate::block::{splice, Block};
use crate::persist::Persist;

verus! {

/// A mutable cell whose value lives in the first bytes of a block.
#[derive(Debug)]
pub struct PersistedCell<T: Persist> {
    block: Block,
    _kind: std::marker::PhantomData<T>,
}

impl<T: Persist> View for PersistedCell<T> {
    type V = T;

    closed spec fn view(&self) -> T {
        T::from_bytes(self.block@.subrange(0, T::spec_size() as int))
    }
}

impl<T: Persist> PersistedCell<T> {
    /// The block is large enough for one value.
    pub closed spec fn wf(&self) -> bool {
        T::spec_size() <= self.block@.len() <= usize::MAX
    }

    fn store(&mut self, value: T)
        requires
            old(self).wf(),
        ensures
            final(self).wf(),
            final(self)@ == value,
    {
        let bytes = value.encode();
        proof {
            T::lemma_round_trip(value);
        }
        self.block.write_bytes(0, bytes.as_slice());
        proof {
            assert(splice(old(self).block@, 0, value.to_bytes()).subrange(0, T::spec_size() as int) =~= value.to_bytes());
        }
    }

    /// Creates a cell on `block` holding `value`.
    pub fn new(block: Block, value: T) -> (r: PersistedCell<T>)
        requires
            T::spec_size() <= block@.len(),
        ensures
            r.wf(),
            r@ == value,
    {
        // The size of a block is a `usize`: reading it bounds the length that `wf` speaks of.
        let _size = block.size();
        let mut r = PersistedCell { block, _kind: std::marker::PhantomData };
        r.store(value);
        r
    }

    /// Gets a copy of the value.
    pub fn get(&self) -> (r: T)
        requires
            self.wf(),
        ensures
            r == self@,
    {
        let bytes = self.block.read_bytes(0, T::size());
        T::decode(bytes.as_slice())
    }

    /// Sets the value.
    pub fn set(&mut self, val: T)
        requires
            old(self).wf(),
        ensures
            final(self).wf(),
            final(self)@ == val,
    {
        self.store(val);
    }

    /// Swaps the values of two cells.
    pub fn swap(&mut self, other: &mut PersistedCell<T>)
        requires
            old(self).wf(),
            old(other).wf(),
        ensures
            final(self).wf(),
            final(other).wf(),
            final(self)@ == old(other)@,
            final(other)@ == old(self)@,
    {
        let mine = self.get();
        let theirs = other.get();
        self.store(theirs);
        other.store(mine);
    }

    /// Replaces the value and returns the one it held before.
    pub fn replace(&mut self, value: T) -> (r: T)
        requires
            old(self).wf(),
        ensures
            final(self).wf(),
            r == old(self)@,
            final(self)@ == value,
    {
        let before = self.get();
        self.store(value);
        before
    }

    /// Takes the value, leaving `T::default()` in its place.
    pub fn take(&mut self) -> (r: T)
        where
            T: Default,
        requires
            old(self).wf(),
        ensures
            final(self).wf(),
            r == old(self)@,
            call_ensures(T::default, (), final(self)@),
    {
        let fresh = T::default();
        self.replace(fresh)
    }

    /// Unwraps the value.
    pub fn into_inner(self) -> (r: T)
        requires
            self.wf(),
        ensures
            r == self@,
    {
        self.get()
    }
}

} // verus!
