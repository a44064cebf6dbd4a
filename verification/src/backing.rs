//! The trusted boundary to the stable-structures crate and to UTF-8
//! validation.
//!
//! Three resources back the store: an ordered map for whole-buffer records,
//! an ordered map for chunk records, and a flat page-granular memory region.
//! Each is held in a struct whose body Verus does not read; an uninterpreted
//! view names its contents, and every method the store calls is a small
//! wrapper whose contract states, over that view, what the crate's own
//! source shows the call does.
//!
//! One memory manager divides a single base memory into disjoint, page-
//! granular virtual memories, one per resource, each under its own memory
//! id: the two keyspaces and the flat region never touch each other's
//! bytes, on the host and on a canister alike.
//!
//! Exhaustion of the base memory panics inside the outside crate, just as
//! allocation failure aborts ordinary Rust; like vstd's collection
//! contracts, these contracts do not model running out of memory. The flat
//! region's own growth is different: its failure there is explicit, and
//! part of the contract of `grow`.

use ic_stable_structures::memory_manager::{MemoryId, MemoryManager, VirtualMemory};
use ic_stable_structures::{DefaultMemoryImpl, Memory, StableBTreeMap};
use vstd::prelude::*;
use vstd::string::StringSliceAdditionalSpecFns;
use vstd::utf8::valid_utf8;

verus! {

/// One WebAssembly page, the growth granule of the flat region.
pub const PAGE_SIZE: u64 = 65536;

/// A slice of the shared base memory, handed out by the memory manager.
type Backing = VirtualMemory<DefaultMemoryImpl>;

/// Lexicographic order on composite `(buffer id, chunk index)` keys: the
/// buffer id is the primary sort key, the chunk index the secondary one.
pub open spec fn lex_lt(a: (u64, u64), b: (u64, u64)) -> bool {
    a.0 < b.0 || (a.0 == b.0 && a.1 < b.1)
}

/// `a` is lexicographically at or before `b`.
pub open spec fn lex_le(a: (u64, u64), b: (u64, u64)) -> bool {
    a == b || lex_lt(a, b)
}

/// The empty whole-buffer map.
pub open spec fn whole_map_empty() -> Map<u64, Seq<u8>> {
    Map::<u64, Seq<u8>>::empty()
}

/// The empty chunk map.
pub open spec fn chunk_map_empty() -> Map<(u64, u64), Seq<u8>> {
    Map::<(u64, u64), Seq<u8>>::empty()
}

/// The contents of a whole-buffer map: each 64-bit key maps to the byte
/// sequence stored under it.
pub uninterp spec fn whole_view(m: WholeMap) -> Map<u64, Seq<u8>>;

/// An ordered persistent map from single 64-bit keys to whole-buffer
/// records, backed by `ic_stable_structures::StableBTreeMap`.
#[verifier::external_body]
pub struct WholeMap {
    inner: StableBTreeMap<u64, Vec<u8>, Backing>,
}

impl WholeMap {
    /// Relies on `StableBTreeMap::insert`: upserts the value under the key,
    /// leaving every other entry as it was.
    #[verifier::external_body]
    pub(crate) fn insert(&mut self, key: u64, value: Vec<u8>)
        ensures
            whole_view(*final(self)) == whole_view(*old(self)).insert(key, value@),
    {
        self.inner.insert(key, value);
    }

    /// Relies on `StableBTreeMap::get`: returns the value stored under the
    /// key, or `None` when the key is absent.
    #[verifier::external_body]
    pub(crate) fn get(&self, key: u64) -> (r: Option<Vec<u8>>)
        ensures
            match r {
                Some(v) => whole_view(*self).contains_key(key) && v@ == whole_view(*self)[key],
                None => !whole_view(*self).contains_key(key),
            },
    {
        self.inner.get(&key)
    }
}

/// The contents of a chunk map: each `(buffer id, chunk index)` key maps to
/// the chunk payload stored under it.
pub uninterp spec fn chunk_view(m: ChunkMap) -> Map<(u64, u64), Seq<u8>>;

/// An ordered persistent map from composite `(buffer id, chunk index)` keys
/// to chunk records, backed by `ic_stable_structures::StableBTreeMap`. The
/// map orders keys lexicographically, so one range scan per buffer id
/// yields its chunks in ascending index order.
#[verifier::external_body]
pub struct ChunkMap {
    inner: StableBTreeMap<(u64, u64), Vec<u8>, Backing>,
}

impl ChunkMap {
    /// Relies on `StableBTreeMap::insert`: upserts the value under the key,
    /// leaving every other entry as it was.
    #[verifier::external_body]
    pub(crate) fn insert(&mut self, key: (u64, u64), value: Vec<u8>)
        ensures
            chunk_view(*final(self)) == chunk_view(*old(self)).insert(key, value@),
    {
        self.inner.insert(key, value);
    }

    /// Relies on `StableBTreeMap::get`: returns the value stored under the
    /// key, or `None` when the key is absent.
    #[verifier::external_body]
    pub(crate) fn get(&self, key: (u64, u64)) -> (r: Option<Vec<u8>>)
        ensures
            match r {
                Some(v) => chunk_view(*self).contains_key(key) && v@ == chunk_view(*self)[key],
                None => !chunk_view(*self).contains_key(key),
            },
    {
        self.inner.get(&key)
    }

    /// Relies on `StableBTreeMap::remove`: deletes the entry under the key,
    /// if any, and returns the value it held.
    #[verifier::external_body]
    pub(crate) fn remove(&mut self, key: (u64, u64)) -> (r: Option<Vec<u8>>)
        ensures
            chunk_view(*final(self)) == chunk_view(*old(self)).remove(key),
            match r {
                Some(v) => chunk_view(*old(self)).contains_key(key) && v@ == chunk_view(
                    *old(self),
                )[key],
                None => !chunk_view(*old(self)).contains_key(key),
            },
    {
        self.inner.remove(&key)
    }

    /// Relies on `StableBTreeMap::range`: iterating a half-open key range
    /// yields exactly the entries whose keys lie in it, in ascending key
    /// order, each with the value stored under its key.
    #[verifier::external_body]
    pub(crate) fn range_entries(&self, start: (u64, u64), end: (u64, u64)) -> (r: Vec<
        ((u64, u64), Vec<u8>),
    >)
        ensures
            forall|i: int|
                0 <= i < r@.len() ==> lex_le(start, (#[trigger] r@[i]).0) && lex_lt(r@[i].0, end)
                    && chunk_view(*self).contains_key(r@[i].0) && r@[i].1@ == chunk_view(
                    *self,
                )[r@[i].0],
            forall|i: int, j: int|
                0 <= i < j < r@.len() ==> lex_lt((#[trigger] r@[i]).0, (#[trigger] r@[j]).0),
            forall|k: (u64, u64)|
                lex_le(start, k) && lex_lt(k, end) && #[trigger] chunk_view(
                    *self,
                ).contains_key(k) ==> exists|i: int| 0 <= i < r@.len() && (#[trigger] r@[i]).0 == k,
    {
        self.inner.range(start..end).map(|e| e.into_pair()).collect()
    }

    /// Relies on `StableBTreeMap::range`: iterating from a start key with
    /// no upper bound yields exactly the entries at or above it, in
    /// ascending key order, each with the value stored under its key.
    #[verifier::external_body]
    pub(crate) fn range_entries_from(&self, start: (u64, u64)) -> (r: Vec<
        ((u64, u64), Vec<u8>),
    >)
        ensures
            forall|i: int|
                0 <= i < r@.len() ==> lex_le(start, (#[trigger] r@[i]).0) && chunk_view(
                    *self,
                ).contains_key(r@[i].0) && r@[i].1@ == chunk_view(*self)[r@[i].0],
            forall|i: int, j: int|
                0 <= i < j < r@.len() ==> lex_lt((#[trigger] r@[i]).0, (#[trigger] r@[j]).0),
            forall|k: (u64, u64)|
                lex_le(start, k) && #[trigger] chunk_view(*self).contains_key(k)
                    ==> exists|i: int| 0 <= i < r@.len() && (#[trigger] r@[i]).0 == k,
    {
        self.inner.range(start..).map(|e| e.into_pair()).collect()
    }
}

/// The bytes of a flat memory region; its length is always a whole number
/// of pages, and it only ever grows.
pub uninterp spec fn region_view(r: Region) -> Seq<u8>;

/// A flat, page-granular, growable memory region: a virtual memory of the
/// shared memory manager, under its own memory id.
#[verifier::external_body]
pub struct Region {
    inner: Backing,
}

impl Region {
    /// Relies on `Memory::size`: the current size in 64 KiB pages.
    #[verifier::external_body]
    pub(crate) fn size_pages(&self) -> (r: u64)
        ensures
            r * PAGE_SIZE == region_view(*self).len(),
    {
        self.inner.size()
    }

    /// Relies on `Memory::grow`: on success it appends the requested number
    /// of zero-filled pages and returns the previous size in pages; on
    /// failure it returns -1 and leaves the region as it was.
    #[verifier::external_body]
    pub(crate) fn grow(&mut self, pages: u64) -> (r: i64)
        ensures
            r == -1 ==> region_view(*final(self)) == region_view(*old(self)),
            r != -1 ==> r >= 0 && r * PAGE_SIZE == region_view(*old(self)).len() && region_view(
                *final(self),
            ) == region_view(*old(self)) + Seq::new((pages * PAGE_SIZE) as nat, |i: int| 0u8),
    {
        self.inner.grow(pages)
    }

    /// Relies on `Memory::write`: copies the source bytes into the region
    /// at `offset`, leaving every byte outside that span as it was. The
    /// call panics when the span reaches past the region's end, so the
    /// region must have been grown to cover it first.
    #[verifier::external_body]
    pub(crate) fn write(&mut self, offset: u64, src: &[u8])
        requires
            offset + src@.len() <= region_view(*old(self)).len(),
        ensures
            region_view(*final(self)) == region_view(*old(self)).subrange(0, offset as int)
                + src@ + region_view(*old(self)).subrange(
                offset + src@.len(),
                region_view(*old(self)).len() as int,
            ),
    {
        self.inner.write(offset, src);
    }

    /// Relies on `Memory::read`: fills the destination with the region's
    /// bytes starting at `offset`. The call panics when the span reaches
    /// past the region's end.
    #[verifier::external_body]
    pub(crate) fn read(&self, offset: u64, len: usize) -> (r: Vec<u8>)
        requires
            offset + len <= region_view(*self).len(),
        ensures
            r@ == region_view(*self).subrange(offset as int, offset + len),
    {
        let mut dst = vec![0u8; len];
        self.inner.read(offset, &mut dst);
        dst
    }
}

/// Relies on `MemoryManager::init` and `get`, and on `StableBTreeMap::new`:
/// the manager hands out disjoint, independently growable virtual memories,
/// one per memory id, over one base memory; a virtual memory starts at zero
/// pages; and a map newly created over a memory is empty. The three
/// resources therefore start empty and never touch each other's bytes.
#[verifier::external_body]
pub(crate) fn new_backings() -> (r: (WholeMap, ChunkMap, Region))
    ensures
        whole_view(r.0) == whole_map_empty(),
        chunk_view(r.1) == chunk_map_empty(),
        region_view(r.2) == Seq::<u8>::empty(),
{
    let manager = MemoryManager::init(DefaultMemoryImpl::default());
    let whole = WholeMap { inner: StableBTreeMap::new(manager.get(MemoryId::new(110))) };
    let chunks = ChunkMap { inner: StableBTreeMap::new(manager.get(MemoryId::new(111))) };
    let region = Region { inner: manager.get(MemoryId::new(116)) };
    (whole, chunks, region)
}

/// Relies on `core::str::from_utf8`: it returns `Ok` exactly on byte
/// sequences that are valid UTF-8, and the returned text borrows those
/// same bytes.
#[verifier::external_body]
pub(crate) fn try_decode_utf8(v: &[u8]) -> (r: Option<&str>)
    ensures
        r is Some <==> valid_utf8(v@),
        r matches Some(s) ==> s.spec_bytes() == v@,
{
    core::str::from_utf8(v).ok()
}

} // verus!
