//! A growable vector whose length and elements live inside one block.
//!
//! The first eight bytes of the block hold the element count; the elements follow packed, each as
//! the bytes of its [`Persist`] encoding. The vector is thus recovered in full from the block's
//! bytes. The count, like every integer that [`Persist`] encodes, is written little-endian on
//! every machine, whatever its native byte order, so that a stored block reads the same
//! everywhere.
use vstd::prelude::*;

use crate::block::{splice, zeros, Block, BlockError};
use crate::persist::{decode_u64, encode_u64, le_bytes_u64, lemma_u64_round_trip, u64_from_le, Persist};
use std::marker::PhantomData;

verus! {

/// Bytes taken by the element count in front of the elements.
pub const HEADER_SIZE: usize = 8;

/// The element count stored in the header of `b`.
pub open spec fn stored_len(b: Seq<u8>) -> nat {
    u64_from_le(b.subrange(0, 8)) as nat
}

/// Where the `i`-th element starts.
pub open spec fn slot_start<T: Persist>(i: int) -> int {
    8 + i * T::spec_size()
}

/// The `i`-th element stored in `b`.
pub open spec fn element_at<T: Persist>(b: Seq<u8>, i: int) -> T {
    T::from_bytes(b.subrange(slot_start::<T>(i), slot_start::<T>(i + 1)))
}

/// Whether `b` holds a header and as many elements as the header counts.
pub open spec fn valid_layout<T: Persist>(b: Seq<u8>) -> bool {
    &&& b.len() >= 8
    &&& 8 + stored_len(b) * T::spec_size() <= b.len()
}

/// The elements that `b` holds.
pub open spec fn elements_of<T: Persist>(b: Seq<u8>) -> Seq<T> {
    Seq::new(stored_len(b), |i: int| element_at::<T>(b, i))
}

/// The number of elements that fit in a block of `size` bytes.
pub open spec fn capacity_of<T: Persist>(size: nat) -> nat {
    if size < 8 {
        0
    } else {
        ((size - 8) as nat / T::spec_size()) as nat
    }
}

/// Slots follow one another: slot `i` ends where slot `i + 1` starts, and no slot before `n`
/// ends past where slot `n` starts.
pub proof fn lemma_slot_order<T: Persist>(i: int, n: int)
    requires
        0 <= i < n,
    ensures
        slot_start::<T>(i) + T::spec_size() == slot_start::<T>(i + 1),
        slot_start::<T>(i + 1) <= slot_start::<T>(n),
        8 <= slot_start::<T>(i),
{
    T::lemma_size();
    let s = T::spec_size() as int;
    assert((i + 1) * s == i * s + s) by (nonlinear_arith);
    assert((i + 1) * s <= n * s) by (nonlinear_arith)
        requires
            i + 1 <= n,
            s > 0,
    ;
    assert(0 <= i * s) by (nonlinear_arith)
        requires
            0 <= i,
            s > 0,
    ;
}

/// Splicing leaves the bytes outside the spliced range as they were.
proof fn lemma_splice_outside(s: Seq<u8>, off: int, data: Seq<u8>, a: int, b: int)
    requires
        0 <= off,
        off + data.len() <= s.len(),
        0 <= a <= b <= s.len(),
        b <= off || off + data.len() <= a,
    ensures
        splice(s, off, data).len() == s.len(),
        splice(s, off, data).subrange(a, b) == s.subrange(a, b),
{
    assert(splice(s, off, data).subrange(a, b) =~= s.subrange(a, b));
}

/// Splicing puts the data in the spliced range.
proof fn lemma_splice_inside(s: Seq<u8>, off: int, data: Seq<u8>)
    requires
        0 <= off,
        off + data.len() <= s.len(),
    ensures
        splice(s, off, data).len() == s.len(),
        splice(s, off, data).subrange(off, off + data.len()) == data,
{
    assert(splice(s, off, data).subrange(off, off + data.len()) =~= data);
}

/// Writing the header leaves every element slot as it was and sets the count.
pub proof fn lemma_header_write<T: Persist>(b: Seq<u8>, n: u64)
    requires
        b.len() >= 8,
    ensures
        splice(b, 0, le_bytes_u64(n)).len() == b.len(),
        stored_len(splice(b, 0, le_bytes_u64(n))) == n,
        forall|i: int| 0 <= i && slot_start::<T>(i + 1) <= b.len() ==>
            #[trigger] element_at::<T>(splice(b, 0, le_bytes_u64(n)), i) == element_at::<T>(b, i),
{
    lemma_u64_round_trip(n);
    lemma_splice_inside(b, 0, le_bytes_u64(n));
    assert forall|i: int| 0 <= i && slot_start::<T>(i + 1) <= b.len() implies
        #[trigger] element_at::<T>(splice(b, 0, le_bytes_u64(n)), i) == element_at::<T>(b, i) by {
        lemma_slot_order::<T>(i, i + 1);
        lemma_splice_outside(b, 0, le_bytes_u64(n), slot_start::<T>(i), slot_start::<T>(i + 1));
    }
}

/// Writing the bytes of slot `k` leaves the header and every other slot as they were.
pub proof fn lemma_slot_write<T: Persist>(b: Seq<u8>, k: int, data: Seq<u8>)
    requires
        0 <= k,
        data.len() == T::spec_size(),
        slot_start::<T>(k + 1) <= b.len(),
    ensures
        splice(b, slot_start::<T>(k), data).len() == b.len(),
        stored_len(splice(b, slot_start::<T>(k), data)) == stored_len(b),
        splice(b, slot_start::<T>(k), data).subrange(slot_start::<T>(k), slot_start::<T>(k + 1)) == data,
        forall|i: int| 0 <= i && i != k && slot_start::<T>(i + 1) <= b.len() ==>
            #[trigger] element_at::<T>(splice(b, slot_start::<T>(k), data), i) == element_at::<T>(b, i),
{
    lemma_slot_order::<T>(k, k + 1);
    lemma_splice_inside(b, slot_start::<T>(k), data);
    lemma_splice_outside(b, slot_start::<T>(k), data, 0, 8);
    assert forall|i: int| 0 <= i && i != k && slot_start::<T>(i + 1) <= b.len() implies
        #[trigger] element_at::<T>(splice(b, slot_start::<T>(k), data), i) == element_at::<T>(b, i) by {
        lemma_slot_order::<T>(i, i + 1);
        if i < k {
            lemma_slot_order::<T>(i, k);
        } else {
            lemma_slot_order::<T>(k, i);
        }
        lemma_splice_outside(b, slot_start::<T>(k), data, slot_start::<T>(i), slot_start::<T>(i + 1));
    }
}

/// Growing a vector's block keeps the vector: appending bytes to a block that holds a vector
/// leaves the count and every element exactly as they were.
pub proof fn lemma_grow<T: Persist>(b: Seq<u8>, extra: Seq<u8>)
    requires
        valid_layout::<T>(b),
    ensures
        valid_layout::<T>(b + extra),
        elements_of::<T>(b + extra) == elements_of::<T>(b),
{
    assert((b + extra).subrange(0, 8) =~= b.subrange(0, 8));
    assert forall|i: int| 0 <= i < stored_len(b) implies #[trigger] element_at::<T>(b + extra, i) == element_at::<T>(b, i) by {
        lemma_slot_order::<T>(i, stored_len(b) as int);
        lemma_slot_order::<T>(i, i + 1);
        assert((b + extra).subrange(slot_start::<T>(i), slot_start::<T>(i + 1)) =~= b.subrange(slot_start::<T>(i), slot_start::<T>(i + 1)));
    }
    assert(elements_of::<T>(b + extra) =~= elements_of::<T>(b));
}

/// Moving the bytes of slots `k + 1 .. n` down by one slot shifts those elements down by one and
/// leaves the header and the slots below `k` as they were.
proof fn lemma_shift_down<T: Persist>(b: Seq<u8>, k: int, n: int)
    requires
        0 <= k,
        k + 1 < n,
        slot_start::<T>(n) <= b.len(),
    ensures
        ({
            let moved = splice(b, slot_start::<T>(k), b.subrange(slot_start::<T>(k + 1), slot_start::<T>(n)));
            &&& moved.len() == b.len()
            &&& moved.subrange(0, 8) == b.subrange(0, 8)
            &&& forall|i: int| 0 <= i < k ==> #[trigger] element_at::<T>(moved, i) == element_at::<T>(b, i)
            &&& forall|i: int| k <= i < n - 1 ==> #[trigger] element_at::<T>(moved, i) == element_at::<T>(b, i + 1)
        }),
{
    let tail = b.subrange(slot_start::<T>(k + 1), slot_start::<T>(n));
    let moved = splice(b, slot_start::<T>(k), tail);
    let s = T::spec_size() as int;
    lemma_slot_order::<T>(k, k + 1);
    lemma_slot_order::<T>(k + 1, n);
    lemma_slot_order::<T>(n - 2, n - 1);
    lemma_slot_order::<T>(n - 1, n);
    assert(slot_start::<T>(k) + tail.len() == slot_start::<T>(n - 1));
    lemma_splice_outside(b, slot_start::<T>(k), tail, 0, 8);
    assert forall|i: int| 0 <= i < k implies #[trigger] element_at::<T>(moved, i) == element_at::<T>(b, i) by {
        lemma_slot_order::<T>(i, k);
        lemma_slot_order::<T>(i, i + 1);
        lemma_splice_outside(b, slot_start::<T>(k), tail, slot_start::<T>(i), slot_start::<T>(i + 1));
    }
    assert forall|i: int| k <= i < n - 1 implies #[trigger] element_at::<T>(moved, i) == element_at::<T>(b, i + 1) by {
        lemma_slot_order::<T>(i, i + 1);
        lemma_slot_order::<T>(i + 1, i + 2);
        lemma_slot_order::<T>(i + 1, n);
        if k < i {
            lemma_slot_order::<T>(k, i);
        }
        assert(slot_start::<T>(i + 1) <= slot_start::<T>(n - 1)) by {
            if i + 1 < n - 1 {
                lemma_slot_order::<T>(i + 1, n - 1);
            }
        }
        let a = slot_start::<T>(i);
        let c = slot_start::<T>(i + 1);
        assert forall|j: int| 0 <= j < c - a implies moved.subrange(a, c)[j] == b.subrange(c, slot_start::<T>(i + 2))[j] by {
            assert(moved[a + j] == tail[a + j - slot_start::<T>(k)]);
            assert(tail[a + j - slot_start::<T>(k)] == b[a + j - slot_start::<T>(k) + slot_start::<T>(k + 1)]);
        }
        assert(moved.subrange(a, c) =~= b.subrange(c, slot_start::<T>(i + 2)));
    }
}

/// One end of a range of indices to drain.
#[derive(Debug, Clone, Copy)]
pub enum RangeBound {
    Included(usize),
    Excluded(usize),
    Unbounded,
}

/// The first index that a range starting at `b` covers.
pub open spec fn first_index(b: RangeBound) -> int {
    match b {
        RangeBound::Included(i) => i as int,
        RangeBound::Excluded(i) => i + 1,
        RangeBound::Unbounded => 0,
    }
}

/// The last index that a range ending at `b` covers, in a vector of `len` elements.
pub open spec fn last_index(b: RangeBound, len: int) -> int {
    match b {
        RangeBound::Included(i) => i as int,
        RangeBound::Excluded(i) => i - 1,
        RangeBound::Unbounded => len - 1,
    }
}

/// The elements of `s` whose entry in `keep` is true, in order.
pub open spec fn kept<T>(s: Seq<T>, keep: Seq<bool>) -> Seq<T>
    decreases s.len(),
{
    if s.len() == 0 {
        Seq::empty()
    } else {
        let rest = kept(s.drop_last(), keep.drop_last());
        if keep[s.len() - 1] {
            rest.push(s.last())
        } else {
            rest
        }
    }
}

proof fn lemma_kept_len<T>(s: Seq<T>, keep: Seq<bool>)
    requires
        keep.len() == s.len(),
    ensures
        kept(s, keep).len() <= s.len(),
    decreases s.len(),
{
    if s.len() > 0 {
        lemma_kept_len(s.drop_last(), keep.drop_last());
    }
}

/// A block of zero bytes holds an empty vector.
proof fn lemma_zeros_empty<T: Persist>(n: nat)
    requires
        n >= 8,
    ensures
        valid_layout::<T>(zeros(n)),
        elements_of::<T>(zeros(n)) == Seq::<T>::empty(),
{
    let z = zeros(n).subrange(0, 8);
    assert(z[0] == 0 && z[1] == 0 && z[2] == 0 && z[3] == 0 && z[4] == 0 && z[5] == 0 && z[6] == 0 && z[7] == 0);
    assert(((0u8 as u64) | ((0u8 as u64) << 8u64) | ((0u8 as u64) << 16u64) | ((0u8 as u64) << 24u64)
        | ((0u8 as u64) << 32u64) | ((0u8 as u64) << 40u64) | ((0u8 as u64) << 48u64) | ((0u8 as u64) << 56u64)) == 0u64)
        by (bit_vector);
    assert(stored_len(zeros(n)) == 0);
    assert(elements_of::<T>(zeros(n)) =~= Seq::<T>::empty());
}

/// The state after pushing `items` in order onto a vector holding `s`.
pub open spec fn push_all<T>(s: Seq<T>, items: Seq<T>) -> Seq<T>
    decreases items.len(),
{
    if items.len() == 0 {
        s
    } else {
        push_all(s, items.drop_last()).push(items.last())
    }
}

/// Popping `n` times from a vector holding `s`: what is left, and the popped values in the
/// order they came out.
pub open spec fn pop_n<T>(s: Seq<T>, n: nat) -> (Seq<T>, Seq<T>)
    decreases n,
{
    if n == 0 || s.len() == 0 {
        (s, Seq::empty())
    } else {
        let (rest, popped) = pop_n(s.drop_last(), (n - 1) as nat);
        (rest, seq![s.last()] + popped)
    }
}

/// Pushes followed by as many pops come back last-first: pushing `items` onto a vector holding
/// `s` and then popping `items.len()` times returns the items reversed and leaves `s`.
pub proof fn lemma_push_pop_lifo<T>(s: Seq<T>, items: Seq<T>)
    ensures
        pop_n(push_all(s, items), items.len()) == (s, items.reverse()),
        s.len() == 0 ==> pop_n(push_all(s, items), items.len()).0.len() == 0,
    decreases items.len(),
{
    if items.len() > 0 {
        let pushed = push_all(s, items);
        assert(pushed.drop_last() == push_all(s, items.drop_last()));
        lemma_push_pop_lifo(s, items.drop_last());
        assert(items.reverse() =~= seq![items.last()] + items.drop_last().reverse());
    }
}

/// A vector is recovered from its bytes alone: they hold a valid layout, and a vector made on a
/// block holding them has the same elements.
pub proof fn lemma_bytes_recover_vector<T: Persist>(v: &PersistentVec<T>)
    requires
        v.wf(),
    ensures
        valid_layout::<T>(v.bytes()),
        elements_of::<T>(v.bytes()) == v@,
{
}

/// The size of the block after a push onto `len` elements held in `size` bytes: unchanged where
/// the value fits; else twice the bytes for elements plus room for the value, where that size
/// can be addressed; else just enough for the value.
pub open spec fn size_after_push<T: Persist>(size: nat, len: nat) -> nat {
    if 8 + (len + 1) * T::spec_size() <= size {
        size
    } else if 2 * size - 8 + T::spec_size() <= usize::MAX {
        (2 * size - 8 + T::spec_size()) as nat
    } else {
        8 + (len + 1) * T::spec_size()
    }
}

/// A growable vector of `T` stored in a block.
#[derive(Debug)]
pub struct PersistentVec<T: Persist> {
    block: Block,
    _kind: PhantomData<T>,
}

impl<T: Persist> View for PersistentVec<T> {
    type V = Seq<T>;

    closed spec fn view(&self) -> Seq<T> {
        elements_of::<T>(self.block@)
    }
}

impl<T: Persist> PersistentVec<T> {
    /// The block holds a header and the elements that it counts.
    pub closed spec fn wf(&self) -> bool {
        &&& valid_layout::<T>(self.block@)
        &&& self.block@.len() <= usize::MAX
    }

    /// The bytes of the block that holds the vector.
    pub closed spec fn bytes(&self) -> Seq<u8> {
        self.block@
    }

    /// Whether `block` holds a vector of `T`: a header and the elements that it counts.
    pub fn can_hold(block: &Block) -> (r: bool)
        ensures
            r == valid_layout::<T>(block@),
    {
        let size = block.size();
        if size < HEADER_SIZE {
            return false;
        }
        let header = block.read_bytes(0, HEADER_SIZE);
        let len = decode_u64(header.as_slice());
        proof {
            T::lemma_size();
        }
        if len > size as u64 {
            proof {
                assert(stored_len(block@) * T::spec_size() >= stored_len(block@)) by (nonlinear_arith)
                    requires
                        T::spec_size() >= 1,
                ;
            }
            return false;
        }
        let len = len as usize;
        match len.checked_mul(T::size()) {
            Some(bytes) => bytes <= size - HEADER_SIZE,
            None => false,
        }
    }

    /// Creates a vector over `block`, taking the elements that it already holds.
    pub fn new(block: Block) -> (r: PersistentVec<T>)
        requires
            valid_layout::<T>(block@),
        ensures
            r@ == elements_of::<T>(block@),
            r.bytes() == block@,
            r.wf(),
    {
        // The size of a block is a `usize`: reading it bounds the length that `wf` speaks of.
        let _size = block.size();
        PersistentVec { block, _kind: PhantomData }
    }

    /// Gets the block that holds the vector.
    pub fn block(&self) -> (r: &Block)
        ensures
            r@ == self.bytes(),
    {
        &self.block
    }

    /// Gives back the block that holds the vector.
    pub fn into_block(self) -> (r: Block)
        requires
            self.wf(),
        ensures
            r@ == self.bytes(),
            valid_layout::<T>(r@),
            elements_of::<T>(r@) == self@,
    {
        self.block
    }

    /// Gets the number of elements.
    pub fn len(&self) -> (r: usize)
        requires
            self.wf(),
        ensures
            r == self@.len(),
    {
        proof {
            T::lemma_size();
            assert(stored_len(self.block@) <= stored_len(self.block@) * T::spec_size()) by (nonlinear_arith)
                requires
                    T::spec_size() >= 1,
            ;
        }
        let size = self.block.size();
        let header = self.block.read_bytes(0, HEADER_SIZE);
        decode_u64(header.as_slice()) as usize
    }

    /// Gets the number of elements that fit before the block must grow.
    pub fn capacity(&self) -> (r: usize)
        requires
            self.wf(),
        ensures
            r == capacity_of::<T>(self.bytes().len()),
    {
        proof {
            T::lemma_size();
        }
        (self.block.size() - HEADER_SIZE) / T::size()
    }

    fn set_len(&mut self, len: usize)
        requires
            old(self).wf(),
            8 + len * T::spec_size() <= old(self).block@.len(),
        ensures
            final(self).wf(),
            final(self).block@ == splice(old(self).block@, 0, le_bytes_u64(len as u64)),
            final(self)@ == Seq::new(len as nat, |i: int| element_at::<T>(old(self).block@, i)),
    {
        let header = encode_u64(len as u64);
        let ghost b = self.block@;
        self.block.write_bytes(0, header.as_slice());
        proof {
            lemma_header_write::<T>(b, len as u64);
            assert forall|i: int| 0 <= i < len implies #[trigger] slot_start::<T>(i + 1) <= b.len() by {
                lemma_slot_order::<T>(i, len as int);
            }
            assert(self@ =~= Seq::new(len as nat, |i: int| element_at::<T>(b, i)));
        }
    }

    /// Reads the element in slot `i`.
    fn read_slot(&self, i: usize) -> (r: T)
        requires
            slot_start::<T>(i + 1) <= self.block@.len() <= usize::MAX,
        ensures
            r == element_at::<T>(self.block@, i as int),
    {
        proof {
            lemma_slot_order::<T>(i as int, i + 1);
        }
        let start = HEADER_SIZE + i * T::size();
        let bytes = self.block.read_bytes(start, start + T::size());
        T::decode(bytes.as_slice())
    }

    /// Writes `value` into slot `i`.
    fn write_slot(&mut self, i: usize, value: T)
        requires
            slot_start::<T>(i + 1) <= old(self).block@.len() <= usize::MAX,
        ensures
            final(self).block@ == splice(old(self).block@, slot_start::<T>(i as int), value.to_bytes()),
    {
        proof {
            lemma_slot_order::<T>(i as int, i + 1);
            T::lemma_round_trip(value);
        }
        let start = HEADER_SIZE + i * T::size();
        let bytes = value.encode();
        self.block.write_bytes(start, bytes.as_slice());
    }

    /// Gets a copy of the element at `index`, if there is one.
    pub fn get(&self, index: usize) -> (r: Option<T>)
        requires
            self.wf(),
        ensures
            index < self@.len() ==> r == Some(self@[index as int]),
            index >= self@.len() ==> r is None,
    {
        if index < self.len() {
            proof {
                lemma_slot_order::<T>(index as int, stored_len(self.block@) as int);
            }
            Some(self.read_slot(index))
        } else {
            None
        }
    }

    /// Appends `value`, growing the block first where it has no room for it.
    ///
    /// Growth doubles the bytes available for elements and adds room for `value`. When the
    /// system refuses the larger mapping, the vector is left as it was and the error is returned.
    pub fn push(&mut self, value: T) -> (r: Result<(), BlockError>)
        requires
            old(self).wf(),
            8 + (old(self)@.len() + 1) * T::spec_size() <= usize::MAX,
        ensures
            final(self).wf(),
            r is Ok ==> final(self)@ == old(self)@.push(value),
            r is Ok ==> final(self).bytes().len() == size_after_push::<T>(
                old(self).bytes().len(),
                old(self)@.len(),
            ),
            8 + (old(self)@.len() + 1) * T::spec_size() <= old(self).bytes().len() ==> r is Ok,
            r is Err ==> final(self).bytes() == old(self).bytes() && (r matches Err(BlockError::IoError(_))),
            final(self).bytes().len() >= old(self).bytes().len(),
    {
        let len = self.len();
        let size = self.block.size();
        let s = T::size();
        proof {
            T::lemma_size();
            assert((len + 1) * s == len * s + s) by (nonlinear_arith);
        }
        let end = HEADER_SIZE + (len + 1) * s;
        if end > size {
            let doubled = size - HEADER_SIZE + s;
            let additional = if doubled <= usize::MAX - size {
                doubled
            } else {
                end - size
            };
            let ghost before = self.block@;
            match self.block.reserve(additional) {
                Ok(()) => {},
                Err(e) => {
                    return Err(e);
                },
            }
            proof {
                lemma_grow::<T>(before, zeros(additional as nat));
            }
        }
        let ghost grown = self.block@;
        proof {
            assert(slot_start::<T>(len + 1) == end);
        }
        self.write_slot(len, value);
        proof {
            T::lemma_round_trip(value);
            lemma_slot_write::<T>(grown, len as int, value.to_bytes());
        }
        let ghost written = self.block@;
        self.set_len(len + 1);
        proof {
            assert forall|i: int| 0 <= i < len + 1 implies #[trigger] element_at::<T>(written, i) == old(self)@.push(value)[i] by {
                lemma_slot_order::<T>(i, len + 1);
                if i < len {
                    assert(element_at::<T>(grown, i) == old(self)@[i]);
                }
            }
            assert(self@ =~= old(self)@.push(value));
        }
        Ok(())
    }

    /// Removes the last element and returns it, or returns `None` when the vector is empty.
    pub fn pop(&mut self) -> (r: Option<T>)
        requires
            old(self).wf(),
        ensures
            final(self).wf(),
            final(self).bytes().len() == old(self).bytes().len(),
            old(self)@.len() == 0 ==> r is None && final(self)@ == old(self)@,
            old(self)@.len() > 0 ==> r == Some(old(self)@.last()) && final(self)@ == old(self)@.drop_last(),
    {
        let len = self.len();
        if len == 0 {
            return None;
        }
        proof {
            lemma_slot_order::<T>(len - 1, len as int);
        }
        let value = self.read_slot(len - 1);
        self.set_len(len - 1);
        proof {
            assert(self@ =~= old(self)@.drop_last());
        }
        Some(value)
    }

    /// Removes the element at `index` and returns it, moving the later elements down by one.
    pub fn remove(&mut self, index: usize) -> (r: T)
        requires
            old(self).wf(),
            index < old(self)@.len(),
        ensures
            final(self).wf(),
            final(self).bytes().len() == old(self).bytes().len(),
            r == old(self)@[index as int],
            final(self)@ == old(self)@.remove(index as int),
    {
        let len = self.len();
        proof {
            lemma_slot_order::<T>(index as int, len as int);
            lemma_slot_order::<T>(len - 1, len as int);
        }
        let out = self.read_slot(index);
        let ghost b = self.block@;
        if index + 1 < len {
            proof {
                lemma_slot_order::<T>(index + 1, len as int);
            }
            let s = T::size();
            let from = HEADER_SIZE + (index + 1) * s;
            let to = HEADER_SIZE + len * s;
            let tail = self.block.read_bytes(from, to);
            self.block.write_bytes(HEADER_SIZE + index * s, tail.as_slice());
            proof {
                lemma_shift_down::<T>(b, index as int, len as int);
            }
        }
        let ghost moved = self.block@;
        proof {
            assert forall|i: int| 0 <= i < len - 1 implies #[trigger] element_at::<T>(moved, i) == old(self)@.remove(index as int)[i] by {
                lemma_slot_order::<T>(i + 1, len as int);
            }
        }
        self.set_len(len - 1);
        proof {
            assert(self@ =~= old(self)@.remove(index as int));
        }
        out
    }

    /// Removes every element.
    pub fn clear(&mut self)
        requires
            old(self).wf(),
        ensures
            final(self).wf(),
            final(self).bytes().len() == old(self).bytes().len(),
            final(self)@ == Seq::<T>::empty(),
    {
        self.set_len(0);
        proof {
            assert(self@ =~= Seq::<T>::empty());
        }
    }

    /// Creates an empty vector on a fresh anonymous block of the default size.
    pub fn in_memory() -> (r: Result<PersistentVec<T>, BlockError>)
        ensures
            r is Ok ==> r->Ok_0.wf() && r->Ok_0@ == Seq::<T>::empty(),
            r is Err ==> r matches Err(BlockError::IoError(_)),
    {
        match crate::block::Blocks.new() {
            Ok(block) => {
                proof {
                    lemma_zeros_empty::<T>(crate::block::DEFAULT_SEGMENT_SIZE as nat);
                }
                Ok(PersistentVec::new(block))
            },
            Err(e) => Err(e),
        }
    }

    /// Creates a vector over `block` and appends `items` to the elements that it holds.
    pub fn with_iter(block: Block, items: Vec<T>) -> (r: Result<PersistentVec<T>, BlockError>)
        requires
            valid_layout::<T>(block@),
            8 + (stored_len(block@) + items@.len()) * T::spec_size() <= usize::MAX,
        ensures
            r is Ok ==> r->Ok_0.wf() && r->Ok_0@ == elements_of::<T>(block@) + items@,
            8 + (stored_len(block@) + items@.len()) * T::spec_size() <= block@.len() ==> r is Ok,
            r is Err ==> r matches Err(BlockError::IoError(_)),
    {
        let mut out = PersistentVec::new(block);
        match out.extend(items) {
            Ok(()) => Ok(out),
            Err(e) => Err(e),
        }
    }

    /// Appends `items` in order; stops at the first growth that the system refuses.
    pub fn extend(&mut self, items: Vec<T>) -> (r: Result<(), BlockError>)
        requires
            old(self).wf(),
            8 + (old(self)@.len() + items@.len()) * T::spec_size() <= usize::MAX,
        ensures
            final(self).wf(),
            r is Ok ==> final(self)@ == old(self)@ + items@,
            8 + (old(self)@.len() + items@.len()) * T::spec_size() <= old(self).bytes().len() ==> r is Ok
                && final(self).bytes().len() == old(self).bytes().len(),
            final(self).bytes().len() >= old(self).bytes().len(),
            r is Err ==> (r matches Err(BlockError::IoError(_))),
            r is Err ==> exists|k: int|
                0 <= k < items@.len() && final(self)@ == old(self)@ + items@.subrange(0, k),
    {
        let mut i: usize = 0;
        while i < items.len()
            invariant
                self.wf(),
                i <= items@.len(),
                self@ == old(self)@ + items@.subrange(0, i as int),
                8 + (old(self)@.len() + items@.len()) * T::spec_size() <= usize::MAX,
                self.bytes().len() >= old(self).bytes().len(),
                8 + (old(self)@.len() + items@.len()) * T::spec_size() <= old(self).bytes().len()
                    ==> self.bytes().len() == old(self).bytes().len(),
            decreases items@.len() - i,
        {
            proof {
                T::lemma_size();
                let a = self@.len() + 1;
                let b = old(self)@.len() + items@.len();
                let sz = T::spec_size();
                assert(a * sz <= b * sz) by (nonlinear_arith)
                    requires
                        a <= b,
                ;
            }
            match self.push(items[i]) {
                Ok(()) => {},
                Err(e) => {
                    return Err(e);
                },
            }
            proof {
                assert(items@.subrange(0, i + 1) =~= items@.subrange(0, i as int).push(items@[i as int]));
            }
            i = i + 1;
        }
        proof {
            assert(items@.subrange(0, i as int) =~= items@);
        }
        Ok(())
    }

    /// Grows the block so that `additional` more elements fit; the elements stay as they are.
    pub fn reserve(&mut self, additional: usize) -> (r: Result<(), BlockError>)
        requires
            old(self).wf(),
            old(self).bytes().len() + additional * T::spec_size() <= usize::MAX,
        ensures
            final(self).wf(),
            final(self)@ == old(self)@,
            r is Ok ==> final(self).bytes().len() == old(self).bytes().len() + additional * T::spec_size(),
            r is Err ==> final(self).bytes() == old(self).bytes() && (r matches Err(BlockError::IoError(_))),
    {
        proof {
            T::lemma_size();
            assert(additional * T::spec_size() >= 0) by (nonlinear_arith)
                requires
                    T::spec_size() >= 1,
            ;
        }
        let ghost before = self.block@;
        let r = self.block.reserve(additional * T::size());
        proof {
            lemma_grow::<T>(before, zeros((additional * T::spec_size()) as nat));
        }
        r
    }

    /// Copies the elements out.
    pub fn to_vec(&self) -> (r: Vec<T>)
        requires
            self.wf(),
        ensures
            r@ == self@,
    {
        let len = self.len();
        let mut out: Vec<T> = Vec::new();
        let mut i: usize = 0;
        while i < len
            invariant
                self.wf(),
                len == self@.len(),
                i <= len,
                out@ == self@.subrange(0, i as int),
            decreases len - i,
        {
            proof {
                lemma_slot_order::<T>(i as int, len as int);
            }
            out.push(self.read_slot(i));
            proof {
                assert(out@ =~= self@.subrange(0, i + 1));
            }
            i = i + 1;
        }
        proof {
            assert(out@ =~= self@);
        }
        out
    }

    /// Overwrites the element at `index`.
    pub fn set(&mut self, index: usize, value: T)
        requires
            old(self).wf(),
            index < old(self)@.len(),
        ensures
            final(self).wf(),
            final(self).bytes().len() == old(self).bytes().len(),
            final(self)@ == old(self)@.update(index as int, value),
    {
        let ghost b = self.block@;
        proof {
            lemma_slot_order::<T>(index as int, stored_len(b) as int);
            T::lemma_round_trip(value);
        }
        self.write_slot(index, value);
        proof {
            lemma_slot_write::<T>(b, index as int, value.to_bytes());
            assert forall|i: int| 0 <= i < stored_len(b) implies #[trigger] element_at::<T>(self.block@, i) == old(self)@.update(index as int, value)[i] by {
                lemma_slot_order::<T>(i, stored_len(b) as int);
            }
            assert(self@ =~= old(self)@.update(index as int, value));
        }
    }

    /// Removes the elements from `start` to `end` and returns them in order.
    pub fn drain(&mut self, start: RangeBound, end: RangeBound) -> (r: Vec<T>)
        requires
            old(self).wf(),
            0 <= first_index(start) <= last_index(end, old(self)@.len() as int) < old(self)@.len(),
        ensures
            final(self).wf(),
            final(self).bytes().len() == old(self).bytes().len(),
            r@ == old(self)@.subrange(first_index(start), last_index(end, old(self)@.len() as int) + 1),
            final(self)@ == old(self)@.subrange(0, first_index(start)) + old(self)@.subrange(
                last_index(end, old(self)@.len() as int) + 1,
                old(self)@.len() as int,
            ),
    {
        let len = self.len();
        let first: usize = match start {
            RangeBound::Included(i) => i,
            RangeBound::Excluded(i) => i + 1,
            RangeBound::Unbounded => 0,
        };
        let last: usize = match end {
            RangeBound::Included(i) => i,
            RangeBound::Excluded(i) => i - 1,
            RangeBound::Unbounded => len - 1,
        };
        let count = last + 1 - first;
        let ghost v = old(self)@;
        let mut out: Vec<T> = Vec::new();
        let mut k: usize = 0;
        while k < count
            invariant
                self.wf(),
                self.bytes().len() == old(self).bytes().len(),
                first + count <= v.len(),
                k <= count,
                self@ == v.subrange(0, first as int) + v.subrange(first + k, v.len() as int),
                out@ == v.subrange(first as int, first + k),
            decreases count - k,
        {
            let x = self.remove(first);
            out.push(x);
            proof {
                assert(out@ =~= v.subrange(first as int, first + k + 1));
                assert(self@ =~= v.subrange(0, first as int) + v.subrange(first + k + 1, v.len() as int));
            }
            k = k + 1;
        }
        out
    }

    /// Keeps only the elements for which `predicate` returns true, in order. The predicate is
    /// asked once for each element, from the last to the first.
    pub fn retain<F: Fn(&T) -> bool>(&mut self, predicate: F)
        requires
            old(self).wf(),
            forall|x: &T| #[trigger] predicate.requires((x,)),
        ensures
            final(self).wf(),
            final(self).bytes().len() == old(self).bytes().len(),
            exists|keep: Seq<bool>|
                {
                    &&& keep.len() == old(self)@.len()
                    &&& forall|i: int| 0 <= i < keep.len() ==> predicate.ensures((&old(self)@[i],), #[trigger] keep[i])
                    &&& final(self)@ == kept(old(self)@, keep)
                },
    {
        let items = self.to_vec();
        let n = items.len();
        let mut decisions: Vec<bool> = Vec::new();
        let mut k: usize = 0;
        while k < n
            invariant
                n == items@.len(),
                k <= n,
                decisions@.len() == k,
            decreases n - k,
        {
            decisions.push(false);
            k = k + 1;
        }
        // The predicate is asked from the last element to the first.
        let mut back: usize = n;
        while back > 0
            invariant
                n == items@.len(),
                back <= n,
                decisions@.len() == n,
                forall|j: int| back <= j < n ==> predicate.ensures((&items@[j],), #[trigger] decisions@[j]),
                forall|x: &T| #[trigger] predicate.requires((x,)),
            decreases back,
        {
            let b = predicate(&items[back - 1]);
            decisions.set(back - 1, b);
            back = back - 1;
        }
        let ghost keep = decisions@;
        let mut out: Vec<T> = Vec::new();
        let mut i: usize = 0;
        while i < n
            invariant
                self.wf(),
                self@ == old(self)@,
                items@ == old(self)@,
                n == items@.len(),
                i <= n,
                keep == decisions@,
                keep.len() == n,
                out@ == kept(items@.subrange(0, i as int), keep.subrange(0, i as int)),
            decreases n - i,
        {
            if decisions[i] {
                out.push(items[i]);
            }
            proof {
                let s1 = items@.subrange(0, i + 1);
                let k1 = keep.subrange(0, i + 1);
                assert(s1.drop_last() =~= items@.subrange(0, i as int));
                assert(k1.drop_last() =~= keep.subrange(0, i as int));
                assert(s1.last() == items@[i as int]);
                assert(k1[i as int] == keep[i as int]);
                assert(out@ =~= kept(s1, k1));
            }
            i = i + 1;
        }
        proof {
            assert(items@.subrange(0, i as int) =~= items@);
            assert(keep.subrange(0, i as int) =~= keep);
        }
        let mut j: usize = 0;
        let ghost b0 = self.block@;
        let n = self.len();
        proof {
            lemma_kept_len(items@, keep);
        }
        while j < out.len()
            invariant
                self.wf(),
                out@.len() <= n,
                n == stored_len(b0),
                j <= out@.len(),
                valid_layout::<T>(b0),
                self.block@.len() == b0.len(),
                stored_len(self.block@) == n,
                forall|k: int| 0 <= k < j ==> #[trigger] element_at::<T>(self.block@, k) == out@[k],
            decreases out@.len() - j,
        {
            let ghost b = self.block@;
            proof {
                lemma_slot_order::<T>(j as int, n as int);
                T::lemma_round_trip(out@[j as int]);
            }
            self.write_slot(j, out[j]);
            proof {
                lemma_slot_write::<T>(b, j as int, out@[j as int].to_bytes());
                assert forall|k: int| 0 <= k < j + 1 implies #[trigger] element_at::<T>(self.block@, k) == out@[k] by {
                    lemma_slot_order::<T>(k, n as int);
                }
            }
            j = j + 1;
        }
        proof {
            if out@.len() > 0 {
                lemma_slot_order::<T>(out@.len() - 1, n as int);
            }
            assert(slot_start::<T>(n as int) <= b0.len());
            assert(0 * T::spec_size() == 0);
            assert(slot_start::<T>(out@.len() as int) <= self.block@.len());
        }
        self.set_len(out.len());
        proof {
            assert(self@ =~= out@);
        }
    }
}

} // verus!
