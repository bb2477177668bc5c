//! Views of a persistent vector as consecutive chunks of a fixed size.
//!
//! [`Split`] reads chunks. [`SplitMut`] tracks, per chunk, whether it is free, read by a number
//! of readers, or held by one writer, and grants access only where that is consistent: a writer
//! excludes every other access to its chunk, readers exclude only writers, and chunks never
//! affect one another.
use vstd::prelude::*;
use vstd::arithmetic::div_mod::{lemma_fundamental_div_mod, lemma_mod_bound};

use crate::persist::Persist;
use crate::persisted_vec::PersistentVec;

verus! {

/// The number of chunks of `k` elements that cover `len` elements; the last may be shorter.
pub open spec fn chunk_count(len: nat, k: nat) -> nat
    recommends
        k > 0,
{
    if len % k == 0 {
        len / k
    } else {
        len / k + 1
    }
}

/// The elements of chunk `index` of `s`, for chunks of `k` elements.
pub open spec fn chunk_of<T>(s: Seq<T>, k: nat, index: nat) -> Seq<T> {
    let lower = index * k;
    let upper = if (index + 1) * k < s.len() {
        (index + 1) * k
    } else {
        s.len()
    };
    s.subrange(lower as int, upper as int)
}

/// A chunk exists exactly where its first element does.
pub proof fn lemma_chunk_exists(index: nat, len: nat, k: nat)
    requires
        k > 0,
    ensures
        index < chunk_count(len, k) <==> index * k < len,
{
    lemma_fundamental_div_mod(len as int, k as int);
    lemma_mod_bound(len as int, k as int);
    let q = len / k;
    let r = len % k;
    assert(len == k * q + r);
    if index < chunk_count(len, k) {
        if r == 0 {
            assert(index * k < len) by (nonlinear_arith)
                requires
                    index < q,
                    len == k * q,
                    k > 0,
            ;
        } else {
            assert(index * k < len) by (nonlinear_arith)
                requires
                    index <= q,
                    len == k * q + r,
                    r > 0,
            ;
        }
    } else {
        assert(index * k >= len) by (nonlinear_arith)
            requires
                index >= q,
                r == 0 || index >= q + 1,
                len == k * q + r,
                r < k,
                k > 0,
        ;
    }
}

fn count_chunks(len: usize, k: usize) -> (r: usize)
    requires
        k > 0,
    ensures
        r == chunk_count(len as nat, k as nat),
{
    let whole = len / k;
    if len % k == 0 {
        whole
    } else {
        proof {
            lemma_fundamental_div_mod(len as int, k as int);
            assert(whole < len) by (nonlinear_arith)
                requires
                    len == k * whole + len % k,
                    len % k > 0,
                    k >= 1,
            ;
        }
        whole + 1
    }
}

/// A copy of chunk `index` of `src`, or `None` where there is no such chunk.
fn copy_chunk<T: Persist>(src: &PersistentVec<T>, k: usize, index: usize) -> (r: Option<Vec<T>>)
    requires
        src.wf(),
        k > 0,
    ensures
        index * k < src@.len() ==> r is Some && r->0@ == chunk_of(src@, k as nat, index as nat),
        index * k >= src@.len() ==> r is None,
{
    let len = src.len();
    match index.checked_mul(k) {
        Some(lower) => {
            if lower >= len {
                return None;
            }
            let upper = if k < len - lower {
                lower + k
            } else {
                len
            };
            proof {
                assert((index + 1) * k == index * k + k) by (nonlinear_arith);
            }
            let all = src.to_vec();
            let mut out: Vec<T> = Vec::new();
            let mut i = lower;
            while i < upper
                invariant
                    lower <= i <= upper <= all@.len(),
                    out@ == all@.subrange(lower as int, i as int),
                decreases upper - i,
            {
                out.push(all[i]);
                proof {
                    assert(out@ =~= all@.subrange(lower as int, i + 1));
                }
                i = i + 1;
            }
            Some(out)
        },
        None => None,
    }
}

/// Chunks of a vector, read-only.
#[derive(Debug)]
pub struct Split<'a, T: Persist> {
    src: &'a PersistentVec<T>,
    split_size: usize,
}

impl<'a, T: Persist> Split<'a, T> {
    /// The elements that the chunks cover.
    pub closed spec fn elements(&self) -> Seq<T> {
        self.src@
    }

    /// The number of elements per chunk.
    pub closed spec fn chunk_size(&self) -> nat {
        self.split_size as nat
    }

    /// The split is over a well-formed vector, with chunks of at least one element.
    pub closed spec fn wf(&self) -> bool {
        self.src.wf() && self.split_size > 0
    }

    /// Gets the number of chunks.
    pub fn len(&self) -> (r: usize)
        requires
            self.wf(),
        ensures
            r == chunk_count(self.elements().len(), self.chunk_size()),
    {
        count_chunks(self.src.len(), self.split_size)
    }

    /// Gets a copy of chunk `index`, if there is one.
    pub fn get(&self, index: usize) -> (r: Option<Vec<T>>)
        requires
            self.wf(),
        ensures
            index < chunk_count(self.elements().len(), self.chunk_size()) ==> r is Some && r->0@ == chunk_of(
                self.elements(),
                self.chunk_size(),
                index as nat,
            ),
            index >= chunk_count(self.elements().len(), self.chunk_size()) ==> r is None,
    {
        proof {
            lemma_chunk_exists(index as nat, self.src@.len(), self.split_size as nat);
        }
        copy_chunk(self.src, self.split_size, index)
    }

    /// Gets copies of all chunks, in order.
    pub fn to_vec(&self) -> (r: Vec<Vec<T>>)
        requires
            self.wf(),
        ensures
            r@.len() == chunk_count(self.elements().len(), self.chunk_size()),
            forall|i: int| 0 <= i < r@.len() ==> (#[trigger] r@[i])@ == chunk_of(self.elements(), self.chunk_size(), i as nat),
    {
        let n = self.len();
        let mut out: Vec<Vec<T>> = Vec::new();
        let mut i: usize = 0;
        while i < n
            invariant
                self.wf(),
                n == chunk_count(self.elements().len(), self.chunk_size()),
                i <= n,
                out@.len() == i,
                forall|j: int| 0 <= j < i ==> (#[trigger] out@[j])@ == chunk_of(self.elements(), self.chunk_size(), j as nat),
            decreases n - i,
        {
            match self.get(i) {
                Some(chunk) => out.push(chunk),
                None => {},
            }
            i = i + 1;
        }
        out
    }
}

impl<T: Persist> PersistentVec<T> {
    /// Views the vector as chunks of `len` elements.
    pub fn split<'a>(&'a self, len: usize) -> (r: Split<'a, T>)
        requires
            self.wf(),
            len > 0,
        ensures
            r.wf(),
            r.elements() == self@,
            r.chunk_size() == len,
    {
        Split { src: self, split_size: len }
    }

    /// Takes the vector for chunk-wise access, with chunks of `len` elements, all free.
    pub fn split_mut(self, len: usize) -> (r: SplitMut<T>)
        requires
            self.wf(),
            len > 0,
        ensures
            r.wf(),
            r.elements() == self@,
            r.chunk_size() == len,
            r.access().len() == chunk_count(self@.len(), len as nat),
            forall|i: int| 0 <= i < r.access().len() ==> #[trigger] r.access()[i] == ChunkAccess::Free,
    {
        let n = count_chunks(self.len(), len);
        let mut access: Vec<ChunkAccess> = Vec::new();
        let mut i: usize = 0;
        while i < n
            invariant
                i <= n,
                access@.len() == i,
                forall|j: int| 0 <= j < i ==> #[trigger] access@[j] == ChunkAccess::Free,
            decreases n - i,
        {
            access.push(ChunkAccess::Free);
            i = i + 1;
        }
        SplitMut { src: self, split_size: len, access }
    }
}

/// Who holds a chunk.
#[derive(Debug, Clone, Copy, PartialEq, Eq, Structural)]
pub enum ChunkAccess {
    /// Nobody.
    Free,
    /// This many readers.
    Shared(usize),
    /// One writer.
    Exclusive,
}

/// The state after one more reader takes the chunk, or `None` where a writer holds it (or the
/// count of readers is at its limit).
pub open spec fn after_read(a: ChunkAccess) -> Option<ChunkAccess> {
    match a {
        ChunkAccess::Free => Some(ChunkAccess::Shared(1)),
        ChunkAccess::Shared(n) => if n < usize::MAX {
            Some(ChunkAccess::Shared((n + 1) as usize))
        } else {
            None
        },
        ChunkAccess::Exclusive => None,
    }
}

/// The state after a writer takes the chunk, or `None` where anybody holds it.
pub open spec fn after_write(a: ChunkAccess) -> Option<ChunkAccess> {
    match a {
        ChunkAccess::Free => Some(ChunkAccess::Exclusive),
        _ => None,
    }
}

/// The state after one reader lets go of the chunk.
pub open spec fn after_read_release(a: ChunkAccess) -> ChunkAccess {
    match a {
        ChunkAccess::Shared(n) => if n <= 1 {
            ChunkAccess::Free
        } else {
            ChunkAccess::Shared((n - 1) as usize)
        },
        _ => a,
    }
}

/// The state after the writer lets go of the chunk.
pub open spec fn after_write_release(a: ChunkAccess) -> ChunkAccess {
    match a {
        ChunkAccess::Exclusive => ChunkAccess::Free,
        _ => a,
    }
}

/// A writer excludes everyone: once a writer holds a chunk, neither a reader nor a second writer
/// is let in, until the writer lets go, which frees the chunk.
pub proof fn lemma_writer_excludes(a: ChunkAccess)
    requires
        after_write(a) is Some,
    ensures
        after_read(after_write(a)->0) is None,
        after_write(after_write(a)->0) is None,
        after_write_release(after_write(a)->0) == ChunkAccess::Free,
{
}

/// Readers share: a second reader is let in beside a first, a writer is not, and once both
/// readers let go the chunk is free.
pub proof fn lemma_readers_share()
    ensures
        after_read(ChunkAccess::Free) is Some,
        after_read(after_read(ChunkAccess::Free)->0) is Some,
        after_write(after_read(ChunkAccess::Free)->0) is None,
        after_read_release(after_read_release(after_read(after_read(ChunkAccess::Free)->0)->0))
            == ChunkAccess::Free,
{
}

/// Chunks are independent: taking or releasing access to chunk `i` leaves the state of every
/// other chunk, and so what a read or write there gets, as it was.
pub proof fn lemma_chunks_independent(access: Seq<ChunkAccess>, i: int, j: int, next: ChunkAccess)
    requires
        0 <= i < access.len(),
        0 <= j < access.len(),
        i != j,
    ensures
        access.update(i, next)[j] == access[j],
        after_read(access.update(i, next)[j]) == after_read(access[j]),
        after_write(access.update(i, next)[j]) == after_write(access[j]),
{
}

impl ChunkAccess {
    /// Lets one more reader take the chunk, where that is allowed.
    pub fn try_read(self) -> (r: Option<ChunkAccess>)
        ensures
            r == after_read(self),
    {
        match self {
            ChunkAccess::Free => Some(ChunkAccess::Shared(1)),
            ChunkAccess::Shared(n) => if n < usize::MAX {
                Some(ChunkAccess::Shared(n + 1))
            } else {
                None
            },
            ChunkAccess::Exclusive => None,
        }
    }

    /// Lets a writer take the chunk, where that is allowed.
    pub fn try_write(self) -> (r: Option<ChunkAccess>)
        ensures
            r == after_write(self),
    {
        match self {
            ChunkAccess::Free => Some(ChunkAccess::Exclusive),
            _ => None,
        }
    }

    /// Lets one reader go.
    pub fn release_read(self) -> (r: ChunkAccess)
        ensures
            r == after_read_release(self),
    {
        match self {
            ChunkAccess::Shared(n) => if n <= 1 {
                ChunkAccess::Free
            } else {
                ChunkAccess::Shared(n - 1)
            },
            _ => self,
        }
    }

    /// Lets the writer go.
    pub fn release_write(self) -> (r: ChunkAccess)
        ensures
            r == after_write_release(self),
    {
        match self {
            ChunkAccess::Exclusive => ChunkAccess::Free,
            _ => self,
        }
    }
}

/// Chunks of a vector with access tracked per chunk.
#[derive(Debug)]
pub struct SplitMut<T: Persist> {
    src: PersistentVec<T>,
    split_size: usize,
    access: Vec<ChunkAccess>,
}

impl<T: Persist> SplitMut<T> {
    /// The elements that the chunks cover.
    pub closed spec fn elements(&self) -> Seq<T> {
        self.src@
    }

    /// The number of elements per chunk.
    pub closed spec fn chunk_size(&self) -> nat {
        self.split_size as nat
    }

    /// Who holds each chunk.
    pub closed spec fn access(&self) -> Seq<ChunkAccess> {
        self.access@
    }

    /// The vector is well-formed, chunks have at least one element, and each chunk has one
    /// access state.
    pub closed spec fn wf(&self) -> bool {
        &&& self.src.wf()
        &&& self.split_size > 0
        &&& self.access@.len() == chunk_count(self.src@.len(), self.split_size as nat)
    }

    /// Gets the number of chunks.
    pub fn len(&self) -> (r: usize)
        requires
            self.wf(),
        ensures
            r == chunk_count(self.elements().len(), self.chunk_size()),
    {
        count_chunks(self.src.len(), self.split_size)
    }

    /// There is one access state per chunk.
    pub proof fn lemma_one_state_per_chunk(&self)
        requires
            self.wf(),
        ensures
            self.access().len() == chunk_count(self.elements().len(), self.chunk_size()),
            self.chunk_size() > 0,
    {
    }

    /// Takes read access to chunk `index` and returns a copy of it; `None` where there is no
    /// such chunk or a writer holds it.
    pub fn read(&mut self, index: usize) -> (r: Option<Vec<T>>)
        requires
            old(self).wf(),
        ensures
            final(self).wf(),
            final(self).elements() == old(self).elements(),
            final(self).chunk_size() == old(self).chunk_size(),
            index < chunk_count(old(self).elements().len(), old(self).chunk_size()) && after_read(old(self).access()[index as int]) is Some ==> {
                &&& r is Some
                &&& r->0@ == chunk_of(old(self).elements(), old(self).chunk_size(), index as nat)
                &&& final(self).access() == old(self).access().update(
                    index as int,
                    after_read(old(self).access()[index as int])->0,
                )
            },
            !(index < chunk_count(old(self).elements().len(), old(self).chunk_size()) && after_read(old(self).access()[index as int]) is Some) ==> r is None
                && final(self).access() == old(self).access(),
    {
        if index >= self.access.len() {
            return None;
        }
        match self.access[index].try_read() {
            Some(next) => {
                proof {
                    lemma_chunk_exists(index as nat, self.src@.len(), self.split_size as nat);
                }
                let chunk = copy_chunk(&self.src, self.split_size, index);
                self.access.set(index, next);
                chunk
            },
            None => None,
        }
    }

    /// Takes write access to chunk `index` and returns a copy of it; `None` where there is no
    /// such chunk or anybody holds it.
    pub fn write(&mut self, index: usize) -> (r: Option<Vec<T>>)
        requires
            old(self).wf(),
        ensures
            final(self).wf(),
            final(self).elements() == old(self).elements(),
            final(self).chunk_size() == old(self).chunk_size(),
            index < chunk_count(old(self).elements().len(), old(self).chunk_size()) && old(self).access()[index as int] == ChunkAccess::Free ==> {
                &&& r is Some
                &&& r->0@ == chunk_of(old(self).elements(), old(self).chunk_size(), index as nat)
                &&& final(self).access() == old(self).access().update(index as int, ChunkAccess::Exclusive)
            },
            !(index < chunk_count(old(self).elements().len(), old(self).chunk_size()) && old(self).access()[index as int] == ChunkAccess::Free) ==> r is None
                && final(self).access() == old(self).access(),
    {
        if index >= self.access.len() {
            return None;
        }
        match self.access[index].try_write() {
            Some(next) => {
                proof {
                    lemma_chunk_exists(index as nat, self.src@.len(), self.split_size as nat);
                }
                let chunk = copy_chunk(&self.src, self.split_size, index);
                self.access.set(index, next);
                chunk
            },
            None => None,
        }
    }

    /// Lets one reader of chunk `index` go.
    pub fn release_read(&mut self, index: usize)
        requires
            old(self).wf(),
        ensures
            final(self).wf(),
            final(self).elements() == old(self).elements(),
            final(self).chunk_size() == old(self).chunk_size(),
            index < chunk_count(old(self).elements().len(), old(self).chunk_size()) ==> final(self).access() == old(self).access().update(
                index as int,
                after_read_release(old(self).access()[index as int]),
            ),
            index >= chunk_count(old(self).elements().len(), old(self).chunk_size()) ==> final(self).access() == old(self).access(),
    {
        if index < self.access.len() {
            let next = self.access[index].release_read();
            self.access.set(index, next);
        }
    }

    /// Lets the writer of chunk `index` go.
    pub fn release_write(&mut self, index: usize)
        requires
            old(self).wf(),
        ensures
            final(self).wf(),
            final(self).elements() == old(self).elements(),
            final(self).chunk_size() == old(self).chunk_size(),
            index < chunk_count(old(self).elements().len(), old(self).chunk_size()) ==> final(self).access() == old(self).access().update(
                index as int,
                after_write_release(old(self).access()[index as int]),
            ),
            index >= chunk_count(old(self).elements().len(), old(self).chunk_size()) ==> final(self).access() == old(self).access(),
    {
        if index < self.access.len() {
            let next = self.access[index].release_write();
            self.access.set(index, next);
        }
    }

    /// Overwrites element `offset` of chunk `index`, which the caller holds for writing; returns
    /// false, changing nothing, where it does not hold it or the chunk has no such element.
    pub fn set(&mut self, index: usize, offset: usize, value: T) -> (r: bool)
        requires
            old(self).wf(),
        ensures
            final(self).wf(),
            final(self).chunk_size() == old(self).chunk_size(),
            final(self).access() == old(self).access(),
            r == (index < chunk_count(old(self).elements().len(), old(self).chunk_size()) && old(self).access()[index as int] == ChunkAccess::Exclusive
                && offset < chunk_of(old(self).elements(), old(self).chunk_size(), index as nat).len()),
            r ==> final(self).elements() == old(self).elements().update(
                index * old(self).chunk_size() + offset,
                value,
            ),
            !r ==> final(self).elements() == old(self).elements(),
    {
        if index >= self.access.len() {
            return false;
        }
        match self.access[index] {
            ChunkAccess::Exclusive => {},
            _ => {
                return false;
            },
        }
        let len = self.src.len();
        let k = self.split_size;
        proof {
            lemma_chunk_exists(index as nat, len as nat, k as nat);
            assert((index + 1) * k == index * k + k) by (nonlinear_arith);
        }
        let lower = index * k;
        let upper = if k < len - lower {
            lower + k
        } else {
            len
        };
        if offset >= upper - lower {
            return false;
        }
        self.src.set(lower + offset, value);
        true
    }

    /// Gives the vector back.
    pub fn into_inner(self) -> (r: PersistentVec<T>)
        requires
            self.wf(),
        ensures
            r.wf(),
            r@ == self.elements(),
    {
        self.src
    }
}

} // verus!
