//! Locks: data that only the right key can reach.
use vstd::prelude::*;

verus! {

/// A key that opens a [`Lock`].
pub trait Key {}

/// The mechanism that checks a key against a lock.
pub trait Tumbler {
    type Key: Key;

    type Error;

    /// Whether `key` opens this tumbler.
    spec fn opens(&self, key: &Self::Key) -> bool;

    /// The error with which this tumbler refuses `key`.
    spec fn refusal(&self, key: &Self::Key) -> Self::Error;

    /// Succeeds exactly when `key` opens this tumbler; otherwise fails with its refusal.
    fn unlock(&self, key: &Self::Key) -> (r: Result<(), Self::Error>)
        ensures
            r is Ok <==> self.opens(key),
            r matches Err(e) ==> e == self.refusal(key),
    ;
}

/// Data that can only be reached with a key that opens its tumbler.
pub struct Lock<T, M: Tumbler> {
    tumbler: M,
    data: T,
}

impl<T, M: Tumbler> Lock<T, M> {
    /// The tumbler that guards the data.
    pub closed spec fn tumbler(&self) -> M {
        self.tumbler
    }

    /// The guarded data.
    pub closed spec fn data(&self) -> T {
        self.data
    }

    /// Locks `data` behind `tumbler`.
    pub fn new(tumbler: M, data: T) -> (r: Lock<T, M>)
        ensures
            r.tumbler() == tumbler,
            r.data() == data,
    {
        Lock { tumbler, data }
    }

    /// Gets the data, where `key` opens the lock.
    pub fn get(&self, key: &M::Key) -> (r: Result<&T, M::Error>)
        ensures
            r is Ok <==> self.tumbler().opens(key),
            r matches Ok(d) ==> *d == self.data(),
            r matches Err(e) ==> e == self.tumbler().refusal(key),
    {
        match self.tumbler.unlock(key) {
            Ok(()) => Ok(&self.data),
            Err(e) => Err(e),
        }
    }

    /// Gets the data for changing, where `key` opens the lock.
    pub fn get_mut(&mut self, key: &M::Key) -> (r: Result<&mut T, M::Error>)
        ensures
            r is Ok <==> old(self).tumbler().opens(key),
            r is Ok ==> *r->Ok_0 == old(self).data() && final(self).data() == *final(r->Ok_0)
                && final(self).tumbler() == old(self).tumbler(),
            r matches Err(e) ==> e == old(self).tumbler().refusal(key),
            r is Err ==> *final(self) == *old(self),
    {
        match self.tumbler.unlock(key) {
            Ok(()) => Ok(&mut self.data),
            Err(e) => Err(e),
        }
    }

    /// Takes the data out, where `key` opens the lock; otherwise hands the lock back.
    pub fn take(self, key: &M::Key) -> (r: Result<T, (M::Error, Lock<T, M>)>)
        ensures
            r is Ok <==> self.tumbler().opens(key),
            r matches Ok(d) ==> d == self.data(),
            r matches Err((e, l)) ==> e == self.tumbler().refusal(key) && l == self,
    {
        match self.tumbler.unlock(key) {
            Ok(()) => Ok(self.data),
            Err(e) => Err((e, self)),
        }
    }
}

/// A key of `N` bytes that opens itself.
#[derive(Debug, Clone)]
pub struct SimpleKey<const N: usize>(pub [u8; N]);

/// Relies on `rand::random`: a value drawn from the thread-local generator, of which nothing is
/// promised.
pub assume_specification<T>[ rand::random::<T> ]() -> (r: T)
    where
        rand::distributions::Standard: rand::distributions::Distribution<T>,
;

impl<const N: usize> SimpleKey<N> {
    /// Creates a key of `N` random bytes.
    pub fn new() -> (r: SimpleKey<N>)
        ensures
            r.0@.len() == N,
    {
        let mut arr = [0u8; N];
        let mut i: usize = 0;
        while i < N
            invariant
                i <= N,
                arr@.len() == N,
            decreases N - i,
        {
            arr.set(i, rand::random::<u8>());
            i = i + 1;
        }
        SimpleKey(arr)
    }
}

impl<const N: usize> Key for SimpleKey<N> {}

impl<const N: usize> Tumbler for SimpleKey<N> {
    type Key = SimpleKey<N>;

    type Error = ();

    open spec fn opens(&self, key: &SimpleKey<N>) -> bool {
        self.0@ == key.0@
    }

    open spec fn refusal(&self, key: &SimpleKey<N>) -> () {
        ()
    }

    fn unlock(&self, key: &SimpleKey<N>) -> (r: Result<(), ()>) {
        let mut i: usize = 0;
        while i < N
            invariant
                i <= N,
                self.0@.len() == N,
                key.0@.len() == N,
                forall|j: int| 0 <= j < i ==> self.0@[j] == key.0@[j],
            decreases N - i,
        {
            if self.0[i] != key.0[i] {
                return Err(());
            }
            i = i + 1;
        }
        proof {
            assert(self.0@ =~= key.0@);
        }
        Ok(())
    }
}

} // verus!
