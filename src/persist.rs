//! Values that can live inside an arena as a fixed-size run of bytes.
use vstd::prelude::*;
use vstd::utf8::{char_is_scalar, char_u32_cast, is_scalar};

use crate::block::splice;
use crate::persisted_vec::{
    elements_of, element_at, lemma_header_write, lemma_slot_order, lemma_slot_write, slot_start,
    stored_len, valid_layout, HEADER_SIZE,
};

verus! {

/// Little-endian bytes of a 32-bit word.
pub open spec fn le_bytes_u32(v: u32) -> Seq<u8> {
    seq![v as u8, (v >> 8u32) as u8, (v >> 16u32) as u8, (v >> 24u32) as u8]
}

/// The 32-bit word held by the first four bytes, little-endian.
pub open spec fn u32_from_le(b: Seq<u8>) -> u32 {
    (b[0] as u32) | ((b[1] as u32) << 8u32) | ((b[2] as u32) << 16u32) | ((b[3] as u32) << 24u32)
}

/// Little-endian bytes of a 64-bit word.
pub open spec fn le_bytes_u64(v: u64) -> Seq<u8> {
    seq![
        v as u8,
        (v >> 8u64) as u8,
        (v >> 16u64) as u8,
        (v >> 24u64) as u8,
        (v >> 32u64) as u8,
        (v >> 40u64) as u8,
        (v >> 48u64) as u8,
        (v >> 56u64) as u8,
    ]
}

/// The 64-bit word held by the first eight bytes, little-endian.
pub open spec fn u64_from_le(b: Seq<u8>) -> u64 {
    (b[0] as u64) | ((b[1] as u64) << 8u64) | ((b[2] as u64) << 16u64) | ((b[3] as u64) << 24u64)
        | ((b[4] as u64) << 32u64) | ((b[5] as u64) << 40u64) | ((b[6] as u64) << 48u64) | ((
    b[7] as u64) << 56u64)
}

pub proof fn lemma_u32_round_trip(v: u32)
    ensures
        le_bytes_u32(v).len() == 4,
        u32_from_le(le_bytes_u32(v)) == v,
{
    let b = le_bytes_u32(v);
    assert(b[0] == v as u8 && b[1] == (v >> 8u32) as u8 && b[2] == (v >> 16u32) as u8 && b[3]
        == (v >> 24u32) as u8);
    assert(((v as u8) as u32) | ((((v >> 8u32) as u8) as u32) << 8u32) | ((((v >> 16u32) as u8)
        as u32) << 16u32) | ((((v >> 24u32) as u8) as u32) << 24u32) == v) by (bit_vector);
}

pub proof fn lemma_u64_round_trip(v: u64)
    ensures
        le_bytes_u64(v).len() == 8,
        u64_from_le(le_bytes_u64(v)) == v,
{
    let b = le_bytes_u64(v);
    assert(b[0] == v as u8 && b[1] == (v >> 8u64) as u8 && b[2] == (v >> 16u64) as u8 && b[3]
        == (v >> 24u64) as u8 && b[4] == (v >> 32u64) as u8 && b[5] == (v >> 40u64) as u8 && b[6]
        == (v >> 48u64) as u8 && b[7] == (v >> 56u64) as u8);
    assert(((v as u8) as u64) | ((((v >> 8u64) as u8) as u64) << 8u64) | ((((v >> 16u64) as u8)
        as u64) << 16u64) | ((((v >> 24u64) as u8) as u64) << 24u64) | ((((v >> 32u64) as u8)
        as u64) << 32u64) | ((((v >> 40u64) as u8) as u64) << 40u64) | ((((v >> 48u64) as u8)
        as u64) << 48u64) | ((((v >> 56u64) as u8) as u64) << 56u64) == v) by (bit_vector);
}

/// Encodes a 64-bit word as eight little-endian bytes.
pub fn encode_u64(v: u64) -> (r: Vec<u8>)
    ensures
        r@ == le_bytes_u64(v),
{
    let r = vec![
        v as u8,
        (v >> 8u64) as u8,
        (v >> 16u64) as u8,
        (v >> 24u64) as u8,
        (v >> 32u64) as u8,
        (v >> 40u64) as u8,
        (v >> 48u64) as u8,
        (v >> 56u64) as u8,
    ];
    assert(r@ =~= le_bytes_u64(v));
    r
}

/// Reads a 64-bit word from eight little-endian bytes.
pub fn decode_u64(b: &[u8]) -> (r: u64)
    requires
        b@.len() == 8,
    ensures
        r == u64_from_le(b@),
{
    (b[0] as u64) | ((b[1] as u64) << 8u64) | ((b[2] as u64) << 16u64) | ((b[3] as u64) << 24u64)
        | ((b[4] as u64) << 32u64) | ((b[5] as u64) << 40u64) | ((b[6] as u64) << 48u64) | ((
    b[7] as u64) << 56u64)
}

/// Reads a 32-bit word from four little-endian bytes.
pub fn decode_u32(b: &[u8]) -> (r: u32)
    requires
        b@.len() == 4,
    ensures
        r == u32_from_le(b@),
{
    (b[0] as u32) | ((b[1] as u32) << 8u32) | ((b[2] as u32) << 16u32) | ((b[3] as u32) << 24u32)
}

/// Encodes a 32-bit word as four little-endian bytes.
pub fn encode_u32(v: u32) -> (r: Vec<u8>)
    ensures
        r@ == le_bytes_u32(v),
{
    let r = vec![v as u8, (v >> 8u32) as u8, (v >> 16u32) as u8, (v >> 24u32) as u8];
    assert(r@ =~= le_bytes_u32(v));
    r
}

/// A type whose whole state is a fixed-size run of bytes, so that a value can be stored in an
/// arena and read back unchanged, also by a later process.
pub trait Persist: Sized + Copy {
    /// The number of bytes that one value takes.
    spec fn spec_size() -> nat;

    /// The bytes that stand for a value.
    spec fn to_bytes(self) -> Seq<u8>;

    /// The value that a run of `spec_size()` bytes stands for.
    spec fn from_bytes(b: Seq<u8>) -> Self;

    /// A value takes between one and eight bytes.
    proof fn lemma_size()
        ensures
            0 < Self::spec_size() <= 8,
    ;

    /// Decoding the bytes of a value gives the value back.
    proof fn lemma_round_trip(v: Self)
        ensures
            v.to_bytes().len() == Self::spec_size(),
            Self::from_bytes(v.to_bytes()) == v,
    ;

    /// Gets the number of bytes that one value takes.
    fn size() -> (r: usize)
        ensures
            r == Self::spec_size(),
    ;

    /// Gets the number of bytes that this value takes.
    fn size_of(&self) -> (r: usize)
        ensures
            r == Self::spec_size(),
    ;

    /// Writes the value as bytes.
    fn encode(&self) -> (r: Vec<u8>)
        ensures
            r@ == self.to_bytes(),
    ;

    /// Reads a value from its bytes.
    fn decode(b: &[u8]) -> (r: Self)
        requires
            b@.len() == Self::spec_size(),
        ensures
            r == Self::from_bytes(b@),
    ;
}

impl Persist for u8 {
    open spec fn spec_size() -> nat {
        1
    }

    open spec fn to_bytes(self) -> Seq<u8> {
        seq![self]
    }

    open spec fn from_bytes(b: Seq<u8>) -> u8 {
        b[0]
    }

    proof fn lemma_size() {
    }

    proof fn lemma_round_trip(v: u8) {
    }

    fn size() -> (r: usize) {
        1
    }

    fn size_of(&self) -> (r: usize) {
        1
    }

    fn encode(&self) -> (r: Vec<u8>) {
        let r = vec![*self];
        assert(r@ =~= self.to_bytes());
        r
    }

    fn decode(b: &[u8]) -> (r: u8) {
        b[0]
    }
}

impl Persist for u32 {
    open spec fn spec_size() -> nat {
        4
    }

    open spec fn to_bytes(self) -> Seq<u8> {
        le_bytes_u32(self)
    }

    open spec fn from_bytes(b: Seq<u8>) -> u32 {
        u32_from_le(b)
    }

    proof fn lemma_size() {
    }

    proof fn lemma_round_trip(v: u32) {
        lemma_u32_round_trip(v);
    }

    fn size() -> (r: usize) {
        4
    }

    fn size_of(&self) -> (r: usize) {
        4
    }

    fn encode(&self) -> (r: Vec<u8>) {
        encode_u32(*self)
    }

    fn decode(b: &[u8]) -> (r: u32) {
        decode_u32(b)
    }
}

impl Persist for i32 {
    open spec fn spec_size() -> nat {
        4
    }

    open spec fn to_bytes(self) -> Seq<u8> {
        le_bytes_u32(self as u32)
    }

    open spec fn from_bytes(b: Seq<u8>) -> i32 {
        u32_from_le(b) as i32
    }

    proof fn lemma_size() {
    }

    proof fn lemma_round_trip(v: i32) {
        lemma_u32_round_trip(v as u32);
        assert((v as u32) as i32 == v) by (bit_vector);
    }

    fn size() -> (r: usize) {
        4
    }

    fn size_of(&self) -> (r: usize) {
        4
    }

    fn encode(&self) -> (r: Vec<u8>) {
        encode_u32(*self as u32)
    }

    fn decode(b: &[u8]) -> (r: i32) {
        decode_u32(b) as i32
    }
}

impl Persist for u64 {
    open spec fn spec_size() -> nat {
        8
    }

    open spec fn to_bytes(self) -> Seq<u8> {
        le_bytes_u64(self)
    }

    open spec fn from_bytes(b: Seq<u8>) -> u64 {
        u64_from_le(b)
    }

    proof fn lemma_size() {
    }

    proof fn lemma_round_trip(v: u64) {
        lemma_u64_round_trip(v);
    }

    fn size() -> (r: usize) {
        8
    }

    fn size_of(&self) -> (r: usize) {
        8
    }

    fn encode(&self) -> (r: Vec<u8>) {
        encode_u64(*self)
    }

    fn decode(b: &[u8]) -> (r: u64) {
        decode_u64(b)
    }
}

impl Persist for usize {
    open spec fn spec_size() -> nat {
        8
    }

    open spec fn to_bytes(self) -> Seq<u8> {
        le_bytes_u64(self as u64)
    }

    open spec fn from_bytes(b: Seq<u8>) -> usize {
        u64_from_le(b) as usize
    }

    proof fn lemma_size() {
    }

    proof fn lemma_round_trip(v: usize) {
        lemma_u64_round_trip(v as u64);
    }

    fn size() -> (r: usize) {
        8
    }

    fn size_of(&self) -> (r: usize) {
        8
    }

    fn encode(&self) -> (r: Vec<u8>) {
        encode_u64(*self as u64)
    }

    fn decode(b: &[u8]) -> (r: usize) {
        decode_u64(b) as usize
    }
}

/// The character whose code is `u`, or NUL where `u` is no scalar value.
pub open spec fn char_of(u: u32) -> char {
    if is_scalar(u) {
        u as char
    } else {
        '\0'
    }
}

/// Relies on `char::from_u32`: `Some` exactly for the codes of Unicode scalar values, holding
/// the character with that code.
#[verifier::external_body]
fn char_from_u32(u: u32) -> (r: Option<char>)
    ensures
        r is Some <==> is_scalar(u),
        r is Some ==> r->0 == u as char,
{
    char::from_u32(u)
}

impl Persist for char {
    open spec fn spec_size() -> nat {
        4
    }

    open spec fn to_bytes(self) -> Seq<u8> {
        le_bytes_u32(self as u32)
    }

    open spec fn from_bytes(b: Seq<u8>) -> char {
        char_of(u32_from_le(b))
    }

    proof fn lemma_size() {
    }

    proof fn lemma_round_trip(v: char) {
        lemma_u32_round_trip(v as u32);
        char_is_scalar(v);
        char_u32_cast(v, v as u32);
    }

    fn size() -> (r: usize) {
        4
    }

    fn size_of(&self) -> (r: usize) {
        4
    }

    fn encode(&self) -> (r: Vec<u8>) {
        encode_u32(*self as u32)
    }

    fn decode(b: &[u8]) -> (r: char) {
        let u = decode_u32(b);
        match char_from_u32(u) {
            Some(c) => {
                c
            },
            None => '\0',
        }
    }
}

/// Copies the bytes of `src` in `start..end`.
fn copy_range(src: &[u8], start: usize, end: usize) -> (r: Vec<u8>)
    requires
        start <= end <= src@.len(),
    ensures
        r@ == src@.subrange(start as int, end as int),
{
    let mut out: Vec<u8> = Vec::new();
    let mut i = start;
    while i < end
        invariant
            start <= i <= end <= src@.len(),
            out@ == src@.subrange(start as int, i as int),
        decreases end - i,
    {
        out.push(src[i]);
        proof {
            assert(out@ =~= src@.subrange(start as int, i + 1));
        }
        i = i + 1;
    }
    out
}

/// Overwrites the bytes of `dest` from `start` on with `data`.
fn write_range(dest: &mut Vec<u8>, start: usize, data: &[u8])
    requires
        start + data@.len() <= old(dest)@.len(),
    ensures
        final(dest)@ == splice(old(dest)@, start as int, data@),
{
    let total = dest.len();
    let mut i: usize = 0;
    while i < data.len()
        invariant
            total == dest@.len(),
            start + data@.len() <= dest@.len(),
            dest@.len() == old(dest)@.len(),
            i <= data@.len(),
            dest@ == old(dest)@.subrange(0, start as int) + data@.subrange(0, i as int) + old(dest)@.subrange(
                start + i,
                old(dest)@.len() as int,
            ),
        decreases data@.len() - i,
    {
        dest.set(start + i, data[i]);
        proof {
            assert(dest@ =~= old(dest)@.subrange(0, start as int) + data@.subrange(0, i + 1) + old(dest)@.subrange(
                start + i + 1,
                old(dest)@.len() as int,
            ));
        }
        i = i + 1;
    }
    proof {
        assert(data@.subrange(0, i as int) =~= data@);
    }
}

/// A length-prefixed run of values, laid out as in a persistent vector: the count as eight
/// little-endian bytes, then the values packed.
#[derive(Debug)]
pub struct PData<T: Persist> {
    items: Vec<T>,
}

impl<T: Persist> View for PData<T> {
    type V = Seq<T>;

    closed spec fn view(&self) -> Seq<T> {
        self.items@
    }
}

impl<T: Persist> PData<T> {
    /// Writes `data` at the start of `dest` and returns it as read back.
    pub fn write(dest: &mut Vec<u8>, data: Vec<T>) -> (r: PData<T>)
        requires
            8 + data@.len() * T::spec_size() <= old(dest)@.len(),
        ensures
            r@ == data@,
            final(dest)@.len() == old(dest)@.len(),
            valid_layout::<T>(final(dest)@),
            elements_of::<T>(final(dest)@) == data@,
            final(dest)@.subrange(slot_start::<T>(data@.len() as int), old(dest)@.len() as int)
                == old(dest)@.subrange(slot_start::<T>(data@.len() as int), old(dest)@.len() as int),
    {
        let n = data.len();
        let total = dest.len();
        let mut i: usize = 0;
        proof {
            T::lemma_size();
            if n > 0 {
                lemma_slot_order::<T>(n - 1, n as int);
            }
        }
        while i < n
            invariant
                n == data@.len(),
                i <= n,
                8 + n * T::spec_size() <= dest@.len(),
                dest@.len() == old(dest)@.len(),
                total == dest@.len(),
                forall|k: int| 0 <= k < i ==> #[trigger] element_at::<T>(dest@, k) == data@[k],
                dest@.subrange(0, 8) == old(dest)@.subrange(0, 8),
                dest@.subrange(slot_start::<T>(n as int), dest@.len() as int)
                    == old(dest)@.subrange(slot_start::<T>(n as int), old(dest)@.len() as int),
            decreases n - i,
        {
            let ghost b = dest@;
            proof {
                lemma_slot_order::<T>(i as int, n as int);
                T::lemma_round_trip(data@[i as int]);
            }
            let bytes = data[i].encode();
            write_range(dest, HEADER_SIZE + i * T::size(), bytes.as_slice());
            proof {
                lemma_slot_write::<T>(b, i as int, bytes@);
                assert forall|k: int| 0 <= k < i + 1 implies #[trigger] element_at::<T>(dest@, k) == data@[k] by {
                    lemma_slot_order::<T>(k, n as int);
                }
                assert(dest@.subrange(0, 8) =~= b.subrange(0, 8));
                assert(dest@.subrange(slot_start::<T>(n as int), dest@.len() as int) =~= b.subrange(
                    slot_start::<T>(n as int),
                    b.len() as int,
                ));
            }
            i = i + 1;
        }
        let ghost b = dest@;
        let header = encode_u64(n as u64);
        write_range(dest, 0, header.as_slice());
        proof {
            lemma_header_write::<T>(b, n as u64);
            assert(dest@.subrange(slot_start::<T>(n as int), dest@.len() as int) =~= b.subrange(
                slot_start::<T>(n as int),
                b.len() as int,
            ));
            assert forall|k: int| 0 <= k < n implies #[trigger] element_at::<T>(dest@, k) == data@[k] by {
                lemma_slot_order::<T>(k, n as int);
            }
            assert(elements_of::<T>(dest@) =~= data@);
        }
        PData { items: data }
    }

    /// Writes the single value `data` at the start of `dest`.
    pub fn write_singleton(dest: &mut Vec<u8>, data: T) -> (r: PData<T>)
        requires
            8 + T::spec_size() <= old(dest)@.len(),
        ensures
            r@ == seq![data],
            final(dest)@.len() == old(dest)@.len(),
            valid_layout::<T>(final(dest)@),
            elements_of::<T>(final(dest)@) == seq![data],
    {
        let v = vec![data];
        proof {
            assert(v@ =~= seq![data]);
        }
        PData::write(dest, v)
    }

    /// Reads the values laid out at the start of `src`.
    pub fn read(src: &[u8]) -> (r: PData<T>)
        requires
            valid_layout::<T>(src@),
        ensures
            r@ == elements_of::<T>(src@),
    {
        proof {
            T::lemma_size();
            assert(stored_len(src@) <= stored_len(src@) * T::spec_size()) by (nonlinear_arith)
                requires
                    T::spec_size() >= 1,
            ;
        }
        let total = src.len();
        let header = copy_range(src, 0, HEADER_SIZE);
        let n = decode_u64(header.as_slice()) as usize;
        let mut items: Vec<T> = Vec::new();
        let mut i: usize = 0;
        while i < n
            invariant
                valid_layout::<T>(src@),
                total == src@.len(),
                n == stored_len(src@),
                i <= n,
                items@ == elements_of::<T>(src@).subrange(0, i as int),
            decreases n - i,
        {
            proof {
                lemma_slot_order::<T>(i as int, n as int);
            }
            let start = HEADER_SIZE + i * T::size();
            let bytes = copy_range(src, start, start + T::size());
            let x = T::decode(bytes.as_slice());
            items.push(x);
            proof {
                assert(items@ =~= elements_of::<T>(src@).subrange(0, i + 1));
            }
            i = i + 1;
        }
        proof {
            assert(items@ =~= elements_of::<T>(src@));
        }
        PData { items }
    }

    /// Gets the number of values.
    pub fn len(&self) -> (r: usize)
        ensures
            r == self@.len(),
    {
        self.items.len()
    }

    /// Copies the values out.
    pub fn to_vec(&self) -> (r: Vec<T>)
        ensures
            r@ == self@,
    {
        let mut out: Vec<T> = Vec::new();
        let mut i: usize = 0;
        while i < self.items.len()
            invariant
                i <= self.items@.len(),
                out@ == self.items@.subrange(0, i as int),
            decreases self.items@.len() - i,
        {
            out.push(self.items[i]);
            proof {
                assert(out@ =~= self.items@.subrange(0, i + 1));
            }
            i = i + 1;
        }
        proof {
            assert(out@ =~= self.items@);
        }
        out
    }

    /// Gets the number of bytes that the laid-out values take.
    pub fn size_of(&self) -> (r: usize)
        requires
            8 + self@.len() * T::spec_size() <= usize::MAX,
        ensures
            r == 8 + self@.len() * T::spec_size(),
    {
        HEADER_SIZE + self.items.len() * T::size()
    }
}

} // verus!
