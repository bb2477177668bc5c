//! Blocks: contiguous byte regions held in a memory map, anonymous or tied to a backing path.
//!
//! A block owns its bytes. One tied to a path is recorded in a registry of open paths for as long
//! as it lives, so that no two blocks ever hold the same path at once.
use vstd::math::min;
use vstd::prelude::*;

use memmap::MmapMut;

verus! {

#[verifier::external_type_specification]
#[verifier::external_body]
pub struct ExMmapMut(memmap::MmapMut);

#[verifier::external_type_specification]
#[verifier::external_body]
pub struct ExIoError(std::io::Error);

/// The bytes that a memory map holds.
pub uninterp spec fn map_bytes(m: MmapMut) -> Seq<u8>;

/// `n` zero bytes.
pub open spec fn zeros(n: nat) -> Seq<u8> {
    Seq::new(n, |i: int| 0u8)
}

/// `s` with the bytes from `start` on replaced by `data`.
pub open spec fn splice(s: Seq<u8>, start: int, data: Seq<u8>) -> Seq<u8> {
    s.subrange(0, start) + data + s.subrange(start + data.len(), s.len() as int)
}

/// Relies on `MmapMut::map_anon`: an anonymous shared mapping of `length` bytes, which the
/// system fills with zeros; a length of zero is refused.
#[verifier::external_body]
fn map_anon(length: usize) -> (r: Result<MmapMut, std::io::Error>)
    ensures
        r is Ok ==> map_bytes(r->Ok_0) == zeros(length as nat),
        length == 0 ==> r is Err,
{
    MmapMut::map_anon(length)
}

/// Relies on the slice that `MmapMut` dereferences to: its length is that of the mapping.
#[verifier::external_body]
fn map_len(m: &MmapMut) -> (r: usize)
    ensures
        r == map_bytes(*m).len(),
{
    m.len()
}

/// Relies on the slice that `MmapMut` dereferences to: copies the bytes in `start..end`.
#[verifier::external_body]
fn map_read(m: &MmapMut, start: usize, end: usize) -> (r: Vec<u8>)
    requires
        start <= end <= map_bytes(*m).len(),
    ensures
        r@ == map_bytes(*m).subrange(start as int, end as int),
{
    m[start..end].to_vec()
}

/// Relies on the mutable slice that `MmapMut` dereferences to: overwrites `start..end` with
/// `data` and leaves every other byte as it was.
#[verifier::external_body]
fn map_write(m: &mut MmapMut, start: usize, end: usize, data: &[u8])
    requires
        start <= end <= map_bytes(*old(m)).len(),
        data@.len() == end - start,
    ensures
        map_bytes(*final(m)) == splice(map_bytes(*old(m)), start as int, data@),
{
    m[start..end].copy_from_slice(data)
}

/// Default block size, in bytes.
pub const DEFAULT_SEGMENT_SIZE: usize = 32896;

/// Gets the number of bytes needed to store `count` values `T`.
pub fn size_of<T: crate::persist::Persist>(count: usize) -> (r: usize)
    requires
        T::spec_size() * count <= usize::MAX,
    ensures
        r == T::spec_size() * count,
{
    T::size() * count
}

/// An error creating or opening a block.
#[derive(Debug)]
pub enum BlockError {
    /// No size was given for a region that has no existing contents to take one from.
    MissingSize { is_anon: bool },
    /// The path is held by a block that is still open.
    PathAlreadyOpened(String),
    /// The system refused the mapping.
    IoError(std::io::Error),
}

/// The set of paths that open blocks hold.
#[derive(Debug)]
pub struct OpenPaths {
    paths: Vec<String>,
}

impl View for OpenPaths {
    type V = Set<Seq<char>>;

    closed spec fn view(&self) -> Set<Seq<char>> {
        Set::new(|p: Seq<char>| exists|i: int| 0 <= i < self.paths@.len() && #[trigger] self.paths@[i]@ == p)
    }
}

impl OpenPaths {
    /// Creates an empty registry.
    pub fn new() -> (r: OpenPaths)
        ensures
            r@ == Set::<Seq<char>>::empty(),
    {
        let r = OpenPaths { paths: Vec::new() };
        assert(r@ =~= Set::<Seq<char>>::empty());
        r
    }

    /// Whether `path` is held by an open block.
    pub fn contains(&self, path: &String) -> (r: bool)
        ensures
            r == self@.contains(path@),
    {
        let mut i: usize = 0;
        while i < self.paths.len()
            invariant
                i <= self.paths@.len(),
                forall|j: int| 0 <= j < i ==> self.paths@[j]@ != path@,
            decreases self.paths@.len() - i,
        {
            if self.paths[i] == *path {
                return true;
            }
            i = i + 1;
        }
        false
    }

    /// Records `path` unless it is there already; says whether it was recorded.
    pub fn try_insert(&mut self, path: String) -> (r: bool)
        ensures
            r == !old(self)@.contains(path@),
            final(self)@ == old(self)@.insert(path@),
    {
        if self.contains(&path) {
            proof {
                assert(final(self)@ =~= old(self)@.insert(path@));
            }
            false
        } else {
            let ghost p = path@;
            self.paths.push(path);
            proof {
                assert(self.paths@[self.paths@.len() - 1]@ == p);
                assert forall|q: Seq<char>| self@.contains(q) == old(self)@.insert(p).contains(q) by {
                    if old(self)@.contains(q) {
                        let i = choose|i: int| 0 <= i < old(self).paths@.len() && #[trigger] old(self).paths@[i]@ == q;
                        assert(self.paths@[i]@ == q);
                    }
                    if self@.contains(q) && q != p {
                        let i = choose|i: int| 0 <= i < self.paths@.len() && #[trigger] self.paths@[i]@ == q;
                        assert(old(self).paths@[i]@ == q);
                    }
                }
                assert(self@ =~= old(self)@.insert(p));
            }
            true
        }
    }

    /// Forgets `path`.
    pub fn remove(&mut self, path: &String)
        ensures
            final(self)@ == old(self)@.remove(path@),
    {
        let mut kept: Vec<String> = Vec::new();
        let mut i: usize = 0;
        while i < self.paths.len()
            invariant
                i <= self.paths@.len(),
                forall|j: int| 0 <= j < kept@.len() ==> (#[trigger] kept@[j])@ != path@,
                forall|j: int| 0 <= j < kept@.len() ==> exists|k: int| 0 <= k < i && (#[trigger] kept@[j])@ == self.paths@[k]@,
                forall|k: int| 0 <= k < i && self.paths@[k]@ != path@ ==> exists|j: int| 0 <= j < kept@.len() && (#[trigger] kept@[j])@ == self.paths@[k]@,
            decreases self.paths@.len() - i,
        {
            let ghost prev = kept@;
            if self.paths[i] != *path {
                kept.push(self.paths[i].clone());
            }
            proof {
                assert forall|k: int| 0 <= k < i + 1 && self.paths@[k]@ != path@ implies exists|j: int|
                    0 <= j < kept@.len() && (#[trigger] kept@[j])@ == self.paths@[k]@ by {
                    if k < i {
                        let j = choose|j: int| 0 <= j < prev.len() && (#[trigger] prev[j])@ == self.paths@[k]@;
                        assert(kept@[j] == prev[j]);
                    } else {
                        assert(kept@[kept@.len() - 1]@ == self.paths@[k]@);
                    }
                }
            }
            i = i + 1;
        }
        let ghost before = self@;
        self.paths = kept;
        proof {
            assert forall|q: Seq<char>| self@.contains(q) == before.remove(path@).contains(q) by {
                if self@.contains(q) {
                    let j = choose|j: int| 0 <= j < self.paths@.len() && #[trigger] self.paths@[j]@ == q;
                    assert(kept@[j]@ == q);
                }
                if before.remove(path@).contains(q) {
                    let k = choose|k: int| 0 <= k < old(self).paths@.len() && #[trigger] old(self).paths@[k]@ == q;
                    assert(old(self).paths@[k]@ != path@);
                    let j = choose|j: int| 0 <= j < kept@.len() && (#[trigger] kept@[j])@ == old(self).paths@[k]@;
                    assert(self.paths@[j]@ == q);
                }
            }
            assert(self@ =~= before.remove(path@));
        }
    }
}

/// One block per path: once a block on `path` is open the registry refuses the path, and once
/// that block is closed the path is free again.
pub proof fn lemma_single_open(registry: Set<Seq<char>>, path: Seq<char>)
    ensures
        registry.insert(path).contains(path),
        !registry.insert(path).remove(path).contains(path),
        registry.insert(path).remove(path) == registry.remove(path),
{
    assert(registry.insert(path).remove(path) =~= registry.remove(path));
}

/// A builder for blocks.
#[derive(Debug)]
pub struct BlockBuilder {
    size: Option<usize>,
}

impl BlockBuilder {
    /// The size that was asked for, if any.
    pub closed spec fn requested_size(&self) -> Option<usize> {
        self.size
    }

    /// Sets the size of the block.
    pub fn with_size(self, size: usize) -> (r: BlockBuilder)
        ensures
            r.requested_size() == Some(size),
    {
        BlockBuilder { size: Some(size) }
    }

    /// Creates an anonymous, zero-filled block of the requested size.
    pub fn create(self) -> (r: Result<Block, BlockError>)
        ensures
            self.requested_size() is None <==> r matches Err(BlockError::MissingSize { is_anon: true }),
            r is Ok ==> self.requested_size() is Some && r->Ok_0@ == zeros(self.requested_size()->0 as nat),
            r is Ok ==> r->Ok_0.disk_path() is None,
            r is Err ==> r matches Err(BlockError::MissingSize { is_anon: true }) || r matches Err(BlockError::IoError(_)),
            self.requested_size() == Some(0usize) ==> r is Err,
    {
        match self.size {
            None => Err(BlockError::MissingSize { is_anon: true }),
            Some(size) => match map_anon(size) {
                Ok(mem_map) => Ok(Block { disk_path: None, mem_map }),
                Err(e) => Err(BlockError::IoError(e)),
            },
        }
    }

    /// Opens a block tied to `path` and records the path in `registry`.
    ///
    /// `existing` holds the bytes already stored at the path, if anything is stored there; the
    /// block then starts with those bytes. Otherwise it starts as the requested number of zero
    /// bytes. The path is recorded only when the block is opened.
    pub fn open(self, registry: &mut OpenPaths, path: String, existing: Option<&[u8]>) -> (r: Result<Block, BlockError>)
        ensures
            old(registry)@.contains(path@) <==> r matches Err(BlockError::PathAlreadyOpened(_)),
            r matches Err(BlockError::PathAlreadyOpened(p)) ==> p@ == path@,
            !old(registry)@.contains(path@) && existing is None && self.requested_size() is None
                <==> r matches Err(BlockError::MissingSize { is_anon: false }),
            r is Ok ==> {
                &&& r->Ok_0.disk_path() == Some(path@)
                &&& existing matches Some(b) ==> r->Ok_0@ == b@
                &&& existing is None ==> r->Ok_0@ == zeros(self.requested_size()->0 as nat)
            },
            r is Ok ==> final(registry)@ == old(registry)@.insert(path@),
            r is Err ==> final(registry)@ == old(registry)@,
            !(r matches Err(BlockError::MissingSize { is_anon: true })),
    {
        if registry.contains(&path) {
            return Err(BlockError::PathAlreadyOpened(path));
        }
        let made = match existing {
            Some(bytes) => Block::with_contents(bytes),
            None => match self.size {
                None => Err(BlockError::MissingSize { is_anon: false }),
                Some(size) => match map_anon(size) {
                    Ok(mem_map) => Ok(Block { disk_path: None, mem_map }),
                    Err(e) => Err(BlockError::IoError(e)),
                },
            },
        };
        match made {
            Ok(block) => {
                let Block { mem_map, .. } = block;
                registry.try_insert(path.clone());
                Ok(Block { disk_path: Some(path), mem_map })
            },
            Err(e) => Err(e),
        }
    }
}

/// Fluent entry point for creating blocks.
#[derive(Debug)]
pub struct Blocks;

impl Blocks {
    /// Creates an anonymous, zero-filled block of [`DEFAULT_SEGMENT_SIZE`] bytes.
    pub fn new(&self) -> (r: Result<Block, BlockError>)
        ensures
            r is Ok ==> r->Ok_0@ == zeros(DEFAULT_SEGMENT_SIZE as nat) && r->Ok_0.disk_path() is None,
            r is Err ==> r matches Err(BlockError::IoError(_)),
    {
        self.builder().with_size(DEFAULT_SEGMENT_SIZE).create()
    }

    /// Creates a block builder with no size set.
    pub fn builder(&self) -> (r: BlockBuilder)
        ensures
            r.requested_size() is None,
    {
        BlockBuilder { size: None }
    }
}

/// A contiguous region of bytes held in a memory map, optionally tied to a backing path.
#[derive(Debug)]
pub struct Block {
    disk_path: Option<String>,
    mem_map: MmapMut,
}

impl View for Block {
    type V = Seq<u8>;

    closed spec fn view(&self) -> Seq<u8> {
        map_bytes(self.mem_map)
    }
}

impl Block {
    /// The path the block is tied to, if any.
    pub closed spec fn disk_path(&self) -> Option<Seq<char>> {
        match self.disk_path {
            Some(p) => Some(p@),
            None => None,
        }
    }

    /// An anonymous block that starts with `bytes`.
    fn with_contents(bytes: &[u8]) -> (r: Result<Block, BlockError>)
        ensures
            r is Ok ==> r->Ok_0@ == bytes@ && r->Ok_0.disk_path() is None,
            r is Err ==> r matches Err(BlockError::IoError(_)),
    {
        match map_anon(bytes.len()) {
            Ok(mut mem_map) => {
                map_write(&mut mem_map, 0, bytes.len(), bytes);
                proof {
                    assert(map_bytes(mem_map) =~= bytes@);
                }
                Ok(Block { disk_path: None, mem_map })
            },
            Err(e) => Err(BlockError::IoError(e)),
        }
    }

    /// Gets the size of the block, in bytes.
    pub fn size(&self) -> (r: usize)
        ensures
            r == self@.len(),
    {
        map_len(&self.mem_map)
    }

    /// Gets the path the block is tied to, if any.
    pub fn path(&self) -> (r: Option<&String>)
        ensures
            r matches Some(p) ==> self.disk_path() == Some(p@),
            r is None ==> self.disk_path() is None,
    {
        self.disk_path.as_ref()
    }

    /// Gets the byte range of page `page`, for pages of [`DEFAULT_SEGMENT_SIZE`] bytes, cut to
    /// the size of the block.
    pub fn page_bounds(&self, page: usize) -> (r: (usize, usize))
        ensures
            r.0 == min(DEFAULT_SEGMENT_SIZE * page, self@.len() as int),
            r.1 == min(DEFAULT_SEGMENT_SIZE * (page + 1), self@.len() as int),
    {
        let size = self.size();
        let pages_in_block = size / DEFAULT_SEGMENT_SIZE;
        proof {
            assert((page + 1) * DEFAULT_SEGMENT_SIZE == page * DEFAULT_SEGMENT_SIZE + DEFAULT_SEGMENT_SIZE) by (nonlinear_arith);
            assert(DEFAULT_SEGMENT_SIZE * page == page * DEFAULT_SEGMENT_SIZE) by (nonlinear_arith);
            assert(DEFAULT_SEGMENT_SIZE * (page + 1) == (page + 1) * DEFAULT_SEGMENT_SIZE) by (nonlinear_arith);
            assert(pages_in_block * DEFAULT_SEGMENT_SIZE <= size) by (nonlinear_arith)
                requires
                    pages_in_block == size / DEFAULT_SEGMENT_SIZE,
            ;
            assert(size < (pages_in_block + 1) * DEFAULT_SEGMENT_SIZE) by (nonlinear_arith)
                requires
                    pages_in_block == size / DEFAULT_SEGMENT_SIZE,
            ;
        }
        if page > pages_in_block {
            proof {
                assert(page * DEFAULT_SEGMENT_SIZE >= (pages_in_block + 1) * DEFAULT_SEGMENT_SIZE) by (nonlinear_arith)
                    requires
                        page >= pages_in_block + 1,
                ;
            }
            (size, size)
        } else {
            proof {
                assert(page * DEFAULT_SEGMENT_SIZE <= pages_in_block * DEFAULT_SEGMENT_SIZE) by (nonlinear_arith)
                    requires
                        page <= pages_in_block,
                ;
            }
            let start = page * DEFAULT_SEGMENT_SIZE;
            let end = if DEFAULT_SEGMENT_SIZE < size - start {
                start + DEFAULT_SEGMENT_SIZE
            } else {
                size
            };
            (start, end)
        }
    }

    /// Whether the block is large enough to hold one value `T`.
    pub fn can_contain<T: crate::persist::Persist>(&self) -> (r: bool)
        ensures
            r == (T::spec_size() <= self@.len()),
    {
        T::size() <= self.size()
    }

    /// Copies the bytes in `start..end`.
    pub fn read_bytes(&self, start: usize, end: usize) -> (r: Vec<u8>)
        requires
            start <= end <= self@.len(),
        ensures
            r@ == self@.subrange(start as int, end as int),
    {
        map_read(&self.mem_map, start, end)
    }

    /// Copies all bytes of the block.
    pub fn contents(&self) -> (r: Vec<u8>)
        ensures
            r@ == self@,
    {
        let r = map_read(&self.mem_map, 0, self.size());
        assert(r@ =~= self@);
        r
    }

    /// Overwrites the bytes from `start` on with `data`.
    pub fn write_bytes(&mut self, start: usize, data: &[u8])
        requires
            start + data@.len() <= old(self)@.len(),
        ensures
            final(self)@ == splice(old(self)@, start as int, data@),
            final(self).disk_path() == old(self).disk_path(),
    {
        // The size of a block is a `usize`: reading it keeps `start + data.len()` in range.
        let _size = self.size();
        map_write(&mut self.mem_map, start, start + data.len(), data);
    }

    /// Grows the block by `additional` bytes, keeping its bytes and appending zeros.
    ///
    /// The block moves to a new mapping; when the system refuses it, the block is left as it was
    /// and the error is returned.
    pub fn reserve(&mut self, additional: usize) -> (r: Result<(), BlockError>)
        requires
            old(self)@.len() + additional <= usize::MAX,
        ensures
            r is Ok ==> final(self)@ == old(self)@ + zeros(additional as nat),
            r is Err ==> final(self)@ == old(self)@ && r matches Err(BlockError::IoError(_)),
            final(self).disk_path() == old(self).disk_path(),
    {
        let old_size = self.size();
        match map_anon(old_size + additional) {
            Ok(mut mem_map) => {
                let kept = map_read(&self.mem_map, 0, old_size);
                map_write(&mut mem_map, 0, old_size, &kept);
                self.mem_map = mem_map;
                proof {
                    assert(self@ =~= old(self)@ + zeros(additional as nat));
                }
                Ok(())
            },
            Err(e) => Err(BlockError::IoError(e)),
        }
    }

    /// Closes the block: forgets its path in `registry` and hands back its bytes, which a
    /// path-backed block's owner stores at the path.
    pub fn close(self, registry: &mut OpenPaths) -> (r: Vec<u8>)
        ensures
            r@ == self@,
            self.disk_path() matches Some(p) ==> final(registry)@ == old(registry)@.remove(p),
            self.disk_path() is None ==> final(registry)@ == old(registry)@,
    {
        let r = self.contents();
        if let Some(p) = &self.disk_path {
            registry.remove(p);
        }
        r
    }
}

} // verus!
