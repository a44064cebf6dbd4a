//! The byte store: one staging slot, two ordered keyspaces and a flat
//! memory region, with every operation's effect stated over their views.

use crate::backing::{
    chunk_map_empty, chunk_view, lex_le, lex_lt, region_view, try_decode_utf8, whole_map_empty,
    whole_view, ChunkMap, Region, WholeMap, PAGE_SIZE,
};
use crate::chunking::{
    chunk_of, chunked_stored, contiguous_upto, lookup_join, num_chunks, ranged_join,
    repeat_bytes,
};
use crate::errors::StoreError;
use vstd::arithmetic::mul::{lemma_mul_inequality, lemma_mul_is_distributive_add_other_way};
use vstd::math::{max, min};
use vstd::pervasive::VecAdditionalExecFns;
use vstd::prelude::*;
use vstd::string::StringSliceAdditionalSpecFns;
use vstd::string::StrSliceExecFns;
use vstd::utf8::{decode_utf8, valid_utf8};

verus! {

/// Appends every byte of `src` to `dst`.
fn append_bytes(dst: &mut Vec<u8>, src: &[u8])
    ensures
        final(dst)@ == old(dst)@ + src@,
{
    let ghost prev = dst@;
    dst.extend_from_slice(src);
    proof {
        assert forall|j: int| 0 <= j < dst@.len() implies dst@[j] == (prev + src@)[j] by {
            if j >= prev.len() {
                assert(cloned::<u8>(src@[j - prev.len()], dst@[j]));
            }
        }
        assert(dst@ =~= prev + src@);
    }
}

/// The fixed chunk size: each chunk record holds at most this many bytes,
/// and only the final chunk of a buffer may hold fewer.
pub const CHUNK_SIZE: usize = 4096;

/// The size bound of a whole-buffer record; storing a longer buffer as one
/// record fails with `SizeExceeded`.
pub const WHOLE_RECORD_MAX: usize = 101_000_000;

/// A byte-buffer store: a single staging slot that appends build up, and
/// three persistent backings that store operations write it into — a
/// whole-record keyspace, a chunk keyspace, and a flat memory region.
pub struct ByteStore {
    buf: Option<Vec<u8>>,
    whole: WholeMap,
    chunks: ChunkMap,
    region: Region,
}

impl ByteStore {
    /// Whether the staging slot has been initialized.
    pub closed spec fn has_slot(self) -> bool {
        self.buf is Some
    }

    /// The bytes of the staging slot; empty when uninitialized.
    pub closed spec fn slot_bytes(self) -> Seq<u8> {
        match self.buf {
            Some(v) => v@,
            None => Seq::empty(),
        }
    }

    /// The whole-buffer records, by 64-bit key.
    pub closed spec fn whole_map(self) -> Map<u64, Seq<u8>> {
        whole_view(self.whole)
    }

    /// The chunk records, by composite `(buffer id, chunk index)` key.
    pub closed spec fn chunk_map(self) -> Map<(u64, u64), Seq<u8>> {
        chunk_view(self.chunks)
    }

    /// The bytes of the flat memory region; its length is the page count
    /// times the page size.
    pub closed spec fn region_bytes(self) -> Seq<u8> {
        region_view(self.region)
    }

    /// Everything but the staging slot is as it was.
    pub open spec fn storage_unchanged(self, other: ByteStore) -> bool {
        &&& self.whole_map() == other.whole_map()
        &&& self.chunk_map() == other.chunk_map()
        &&& self.region_bytes() == other.region_bytes()
    }

    /// A fresh store: no slot, empty keyspaces, an empty region.
    pub fn new() -> (r: ByteStore)
        ensures
            !r.has_slot(),
            r.slot_bytes() == Seq::<u8>::empty(),
            r.whole_map() == whole_map_empty(),
            r.chunk_map() == chunk_map_empty(),
            r.region_bytes() == Seq::<u8>::empty(),
    {
        let (whole, chunks, region) = crate::backing::new_backings();
        ByteStore { buf: None, whole, chunks, region }
    }

    /// Appends `times` copies of `text`'s bytes to the staging slot,
    /// initializing it first if it was never used, and returns the slot's
    /// new length.
    pub fn append_buffer(&mut self, text: &str, times: usize) -> (r: usize)
        requires
            old(self).slot_bytes().len() + text.spec_bytes().len() * times <= usize::MAX,
        ensures
            final(self).has_slot(),
            final(self).slot_bytes() == old(self).slot_bytes() + repeat_bytes(
                text.spec_bytes(),
                times as nat,
            ),
            r == final(self).slot_bytes().len(),
            old(self).storage_unchanged(*final(self)),
    {
        let bytes = text.as_bytes_vec();
        if self.buf.is_none() {
            self.buf = Some(Vec::with_capacity(bytes.len() * times));
        }
        let mut b = self.buf.take().unwrap();
        let ghost base = b@;
        let ghost piece = text.spec_bytes();
        let mut i: usize = 0;
        while i < times
            invariant
                i <= times,
                bytes@ == piece,
                b@ == base + repeat_bytes(piece, i as nat),
            decreases times - i,
        {
            let ghost prev = b@;
            b.extend_from_slice(bytes.as_slice());
            proof {
                assert forall|j: int| 0 <= j < b@.len() implies b@[j] == (prev + piece)[j] by {
                    if j >= prev.len() {
                        assert(cloned::<u8>(piece[j - prev.len()], b@[j]));
                    }
                }
                assert(b@ =~= base + repeat_bytes(piece, (i + 1) as nat));
            }
            i = i + 1;
        }
        let r = b.len();
        self.buf = Some(b);
        r
    }

    /// Empties the staging slot in place; a no-op when the slot was never
    /// initialized.
    pub fn clear_buffer(&mut self)
        ensures
            final(self).has_slot() == old(self).has_slot(),
            final(self).slot_bytes() == Seq::<u8>::empty(),
            old(self).storage_unchanged(*final(self)),
    {
        match self.buf.take() {
            None => {},
            Some(mut b) => {
                b.clear();
                self.buf = Some(b);
            },
        }
    }

    /// Overwrites every byte of the staging slot with zero, keeping its
    /// length; a no-op when the slot was never initialized.
    pub fn zero_buffer(&mut self)
        ensures
            final(self).has_slot() == old(self).has_slot(),
            final(self).slot_bytes() == Seq::new(old(self).slot_bytes().len(), |i: int| 0u8),
            old(self).storage_unchanged(*final(self)),
    {
        match self.buf.take() {
            None => {
                assert(final(self).slot_bytes() =~= Seq::new(
                    old(self).slot_bytes().len(),
                    |i: int| 0u8,
                ));
            },
            Some(mut b) => {
                let n = b.len();
                let mut i: usize = 0;
                while i < n
                    invariant
                        i <= n,
                        b@.len() == n,
                        forall|j: int| 0 <= j < i ==> b@[j] == 0u8,
                    decreases n - i,
                {
                    b.set(i, 0u8);
                    i = i + 1;
                }
                self.buf = Some(b);
                assert(final(self).slot_bytes() =~= Seq::new(
                    old(self).slot_bytes().len(),
                    |i: int| 0u8,
                ));
            },
        }
    }

    /// The staging slot's current length; fails with `OutOfBounds` when the
    /// slot was never initialized.
    pub fn buffer_size(&self) -> (r: Result<usize, StoreError>)
        ensures
            match r {
                Ok(n) => self.has_slot() && n == self.slot_bytes().len(),
                Err(e) => !self.has_slot() && e == StoreError::OutOfBounds,
            },
    {
        match &self.buf {
            Some(b) => Ok(b.len()),
            None => Err(StoreError::OutOfBounds),
        }
    }

    /// Stores the whole staging slot as one record under `key`, overwriting
    /// any record already there, and returns the number of bytes stored.
    /// Fails with `OutOfBounds` when the slot was never initialized and
    /// with `SizeExceeded` when it is longer than `WHOLE_RECORD_MAX`.
    pub fn store_buffer(&mut self, key: u64) -> (r: Result<usize, StoreError>)
        ensures
            final(self).has_slot() == old(self).has_slot(),
            final(self).slot_bytes() == old(self).slot_bytes(),
            final(self).chunk_map() == old(self).chunk_map(),
            final(self).region_bytes() == old(self).region_bytes(),
            match r {
                Ok(n) => old(self).has_slot() && old(self).slot_bytes().len() <= WHOLE_RECORD_MAX
                    && n == old(self).slot_bytes().len() && final(self).whole_map() == old(self).whole_map().insert(key, old(self).slot_bytes()),
                Err(e) => {
                    &&& final(self).whole_map() == old(self).whole_map()
                    &&& e == StoreError::OutOfBounds || e == StoreError::SizeExceeded
                    &&& e == StoreError::OutOfBounds <==> !old(self).has_slot()
                    &&& e == StoreError::SizeExceeded <==> (old(self).has_slot() && old(self).slot_bytes().len() > WHOLE_RECORD_MAX)
                },
            },
    {
        let b = match &self.buf {
            Some(b) => b,
            None => {
                return Err(StoreError::OutOfBounds);
            },
        };
        let len = b.len();
        if len > WHOLE_RECORD_MAX {
            return Err(StoreError::SizeExceeded);
        }
        let copy = b.clone();
        proof {
            assert forall|j: int| 0 <= j < copy@.len() implies copy@[j] == b@[j] by {
                assert(cloned::<u8>(b@[j], copy@[j]));
            }
            assert(copy@ =~= b@);
        }
        self.whole.insert(key, copy);
        Ok(len)
    }

    /// Loads the whole record under `key` into the staging slot, replacing
    /// the slot's contents, and returns the number of bytes loaded. Fails
    /// with `AbsentEntry`, leaving the slot as it was, when no record is
    /// stored under `key`.
    pub fn load_buffer(&mut self, key: u64) -> (r: Result<usize, StoreError>)
        ensures
            old(self).storage_unchanged(*final(self)),
            match r {
                Ok(n) => old(self).whole_map().contains_key(key) && final(self).has_slot()
                    && final(self).slot_bytes() == old(self).whole_map()[key] && n == final(self).slot_bytes().len(),
                Err(e) => e == StoreError::AbsentEntry && !old(self).whole_map().contains_key(key)
                    && final(self).has_slot() == old(self).has_slot() && final(self).slot_bytes()
                    == old(self).slot_bytes(),
            },
    {
        match self.whole.get(key) {
            Some(v) => {
                let n = v.len();
                self.buf = Some(v);
                Ok(n)
            },
            None => Err(StoreError::AbsentEntry),
        }
    }

    /// Writes the staging slot's bytes into the flat memory region at
    /// `offset`, growing the region first so that the written span fits,
    /// and returns the number of bytes written. The region's size never
    /// decreases. Fails with `OutOfBounds` when the slot was never
    /// initialized, and with `ResourceExhaustion` when the region cannot
    /// grow to cover the span; when the span already fits, the call is
    /// owed success.
    pub fn store_into_memory(&mut self, offset: u64) -> (r: Result<usize, StoreError>)
        ensures
            final(self).has_slot() == old(self).has_slot(),
            final(self).slot_bytes() == old(self).slot_bytes(),
            final(self).whole_map() == old(self).whole_map(),
            final(self).chunk_map() == old(self).chunk_map(),
            final(self).region_bytes().len() >= old(self).region_bytes().len(),
            old(self).has_slot() && offset + old(self).slot_bytes().len() <= old(self).region_bytes().len() && offset + old(self).slot_bytes().len() <= u64::MAX ==> r
                is Ok,
            match r {
                Ok(n) => old(self).has_slot() && n == old(self).slot_bytes().len() && offset + n
                    <= final(self).region_bytes().len() && final(self).region_bytes().subrange(
                    offset as int,
                    offset + n,
                ) == old(self).slot_bytes() && (forall|i: int|
                    0 <= i < old(self).region_bytes().len() && !(offset <= i < offset + n)
                        ==> final(self).region_bytes()[i] == old(self).region_bytes()[i]) && (
                forall|i: int|
                    old(self).region_bytes().len() <= i < final(self).region_bytes().len() && !(
                    offset <= i < offset + n) ==> final(self).region_bytes()[i] == 0u8)
                    && final(self).region_bytes().len() == max(
                    old(self).region_bytes().len() as int,
                    ((offset + n + PAGE_SIZE - 1) / (PAGE_SIZE as int)) * (PAGE_SIZE as int),
                ),
                Err(e) => {
                    &&& final(self).region_bytes() == old(self).region_bytes()
                    &&& e == StoreError::OutOfBounds <==> !old(self).has_slot()
                    &&& e == StoreError::OutOfBounds || e == StoreError::ResourceExhaustion
                },
            },
    {
        let b = match &self.buf {
            Some(b) => b,
            None => {
                return Err(StoreError::OutOfBounds);
            },
        };
        let len = b.len();
        let max_address = match offset.checked_add(len as u64) {
            Some(m) => m,
            None => {
                proof {
                    vstd::arithmetic::div_mod::lemma_mod_bound(
                        self.region_bytes().len() as int,
                        PAGE_SIZE as int,
                    );
                }
                return Err(StoreError::ResourceExhaustion);
            },
        };
        let pages_required = max_address / PAGE_SIZE + (
        if max_address % PAGE_SIZE != 0 {
            1u64
        } else {
            0u64
        });
        proof {
            vstd::arithmetic::div_mod::lemma_fundamental_div_mod(
                max_address as int,
                PAGE_SIZE as int,
            );
            vstd::arithmetic::div_mod::lemma_mod_bound(max_address as int, PAGE_SIZE as int);
            let q = max_address as int / (PAGE_SIZE as int);
            let rm = max_address as int % (PAGE_SIZE as int);
            if rm == 0 {
                vstd::arithmetic::div_mod::lemma_fundamental_div_mod_converse_div(
                    max_address as int + PAGE_SIZE - 1,
                    PAGE_SIZE as int,
                    q,
                    PAGE_SIZE as int - 1,
                );
            } else {
                vstd::arithmetic::div_mod::lemma_fundamental_div_mod_converse_div(
                    max_address as int + PAGE_SIZE - 1,
                    PAGE_SIZE as int,
                    q + 1,
                    rm - 1,
                );
            }
            assert(pages_required as int == (max_address as int + PAGE_SIZE - 1) / (
            PAGE_SIZE as int));
        }
        let cur_pages = self.region.size_pages();
        if cur_pages < pages_required {
            let res = self.region.grow(pages_required - cur_pages);
            if res == -1 {
                return Err(StoreError::ResourceExhaustion);
            }
        }
        self.region.write(offset, b.as_slice());
        Ok(len)
    }

    /// The flat memory region's current size in pages.
    pub fn memory_pages(&self) -> (r: u64)
        ensures
            r * PAGE_SIZE == self.region_bytes().len(),
    {
        self.region.size_pages()
    }

    /// Reads `size` bytes from the flat memory region at `offset`. Fails
    /// with `OutOfBounds` when the span reaches past the region's end or
    /// past the 64-bit address space.
    pub fn read_memory(&self, offset: u64, size: usize) -> (r: Result<Vec<u8>, StoreError>)
        ensures
            match r {
                Ok(v) => offset + size <= self.region_bytes().len() && v@
                    == self.region_bytes().subrange(offset as int, offset + size),
                Err(e) => e == StoreError::OutOfBounds && (offset + size
                    > self.region_bytes().len() || offset + size > u64::MAX),
            },
    {
        let end = match offset.checked_add(size as u64) {
            Some(e) => e,
            None => {
                return Err(StoreError::OutOfBounds);
            },
        };
        let pages = self.region.size_pages();
        match pages.checked_mul(PAGE_SIZE) {
            Some(total) => {
                if end > total {
                    return Err(StoreError::OutOfBounds);
                }
            },
            None => {
                // The region holds more bytes than any 64-bit span can name.
            },
        }
        Ok(self.region.read(offset, size))
    }

    /// What a chunked store does: the slot, the whole-record keyspace and
    /// the region are untouched; on success the key's records are exactly
    /// the chunks of the slot — under `(key, 0), …, (key, n-1)`, with every
    /// record at or above `n` deleted — and other buffer ids are untouched.
    pub open spec fn chunked_store_effect(
        pre: ByteStore,
        post: ByteStore,
        key: u64,
        csize: nat,
        r: Result<(usize, usize), StoreError>,
    ) -> bool {
        &&& post.has_slot() == pre.has_slot()
        &&& post.slot_bytes() == pre.slot_bytes()
        &&& post.whole_map() == pre.whole_map()
        &&& post.region_bytes() == pre.region_bytes()
        &&& match r {
            Ok(p) => {
                let data = pre.slot_bytes();
                let n = num_chunks(data.len(), csize) as int;
                &&& pre.has_slot()
                &&& p.0 == data.len()
                &&& p.1 == n
                &&& forall|k: (u64, u64)|
                    k.0 != key ==> ((#[trigger] post.chunk_map().contains_key(k)
                        <==> pre.chunk_map().contains_key(k)) && (pre.chunk_map().contains_key(k)
                        ==> post.chunk_map()[k] == pre.chunk_map()[k]))
                &&& chunked_stored(post.chunk_map(), key, data, csize)
            },
            Err(e) => {
                &&& e == StoreError::OutOfBounds
                &&& !pre.has_slot()
                &&& post.chunk_map() == pre.chunk_map()
            },
        }
    }

    /// Splits the staging slot into chunks of `chunk_size` bytes and
    /// stores them under `(key, 0), (key, 1), …`, overwriting records
    /// already there and deleting every leftover record of the buffer id
    /// at or above the new chunk count, so the id's indices always end up
    /// gap-free. Returns the number of bytes stored and the number of
    /// chunks. Fails with `OutOfBounds` when the slot was never
    /// initialized.
    pub fn store_buffer_chunked(&mut self, key: u64, chunk_size: usize) -> (r: Result<
        (usize, usize),
        StoreError,
    >)
        requires
            chunk_size > 0,
        ensures
            ByteStore::chunked_store_effect(
                *old(self),
                *final(self),
                key,
                chunk_size as nat,
                r,
            ),
    {
        let ghost m0 = self.chunk_map();
        let ghost data = self.slot_bytes();
        let ghost csize = chunk_size as nat;
        let ghost n = num_chunks(data.len(), csize) as int;
        proof {
            crate::chunking::lemma_num_chunks_bounds(data.len(), csize);
        }
        if self.buf.is_none() {
            return Err(StoreError::OutOfBounds);
        }
        let len = match &self.buf {
            Some(b) => b.len(),
            None => 0,
        };
        let mut idx: usize = 0;
        let mut pos: usize = 0;
        while pos < len
            invariant
                self.buf == old(self).buf,
                self.whole == old(self).whole,
                self.region == old(self).region,
                self.buf is Some,
                data == self.slot_bytes(),
                csize == chunk_size as nat,
                chunk_size > 0,
                len == data.len(),
                n == num_chunks(data.len(), csize) as int,
                n <= len <= u64::MAX,
                0 <= idx <= n,
                pos == min((idx * csize) as int, len as int),
                forall|i: u64|
                    (i as int) < idx ==> #[trigger] self.chunk_map().contains_key((key, i)),
                forall|i: u64|
                    (i as int) < idx ==> (#[trigger] self.chunk_map()[(key, i)]) == chunk_of(
                        data,
                        csize,
                        i as nat,
                    ),
                forall|k: (u64, u64)|
                    k.0 != key ==> ((#[trigger] self.chunk_map().contains_key(k) <==> m0.contains_key(
                        k,
                    )) && (m0.contains_key(k) ==> self.chunk_map()[k] == m0[k])),
                forall|j: u64|
                    (j as int) >= idx ==> ((#[trigger] self.chunk_map().contains_key((key, j))
                        <==> m0.contains_key((key, j))) && (m0.contains_key((key, j))
                        ==> self.chunk_map()[(key, j)] == m0[(key, j)])),
            decreases len - pos,
        {
            proof {
                crate::chunking::lemma_num_chunks_bounds(data.len(), csize);
                if idx >= n {
                    lemma_mul_inequality(n, idx as int, csize as int);
                }
                lemma_mul_inequality(0, idx as int, csize as int);
                lemma_mul_is_distributive_add_other_way(csize as int, idx as int, 1);
            }
            let end = if len - pos > chunk_size {
                pos + chunk_size
            } else {
                len
            };
            let mut piece: Vec<u8> = Vec::with_capacity(chunk_size);
            let b = match &self.buf {
                Some(b) => b,
                None => {
                    return Err(StoreError::OutOfBounds);
                },
            };
            let mut q: usize = pos;
            while q < end
                invariant
                    pos <= q <= end <= b@.len(),
                    piece@ == b@.subrange(pos as int, q as int),
                decreases end - q,
            {
                let byte = b[q];
                piece.push(byte);
                proof {
                    assert(piece@ =~= b@.subrange(pos as int, q as int + 1));
                }
                q = q + 1;
            }
            proof {
                assert(piece@ =~= chunk_of(data, csize, idx as nat));
            }
            let ghost mprev = self.chunk_map();
            self.chunks.insert((key, idx as u64), piece);
            proof {
                assert(pos + (end - pos) == min(((idx + 1) * csize) as int, len as int));
                assert forall|i: u64| (i as int) < idx + 1 implies self.chunk_map().contains_key(
                    (key, i),
                ) && (#[trigger] self.chunk_map()[(key, i)]) == chunk_of(
                    data,
                    csize,
                    i as nat,
                ) by {
                    if (i as int) < idx {
                        assert(mprev.contains_key((key, i)));
                        assert(mprev[(key, i)] == chunk_of(data, csize, i as nat));
                        assert(i != idx as u64);
                    } else {
                        assert(i == idx as u64);
                    }
                }
            }
            idx = idx + 1;
            pos = end;
        }
        proof {
            crate::chunking::lemma_num_chunks_bounds(data.len(), csize);
            if idx < n {
                lemma_mul_inequality(idx as int, n - 1, csize as int);
            }
            assert(idx == n);
        }
        let ghost m1 = self.chunk_map();
        let stale = if key < u64::MAX {
            self.chunks.range_entries((key, idx as u64), (key + 1, 0))
        } else {
            self.chunks.range_entries_from((key, idx as u64))
        };
        proof {
            assert forall|s: int| 0 <= s < stale@.len() implies (#[trigger] stale@[s]).0.0 == key
                && (stale@[s].0.1 as int) >= n && m1.contains_key(stale@[s].0) && m1[stale@[s].0]
                == stale@[s].1@ by {
                assert(lex_le((key, idx as u64), stale@[s].0));
                if key < u64::MAX {
                    assert(lex_lt(stale@[s].0, ((key + 1) as u64, 0u64)));
                }
            }
            assert forall|j2: u64|
                (j2 as int) >= n && #[trigger] m1.contains_key((key, j2)) implies exists|s: int|
                0 <= s < stale@.len() && (#[trigger] stale@[s]).0 == (key, j2) by {
                assert(lex_le((key, idx as u64), (key, j2)));
                if key < u64::MAX {
                    assert(lex_lt((key, j2), ((key + 1) as u64, 0u64)));
                }
            }
        }
        let mut t: usize = 0;
        while t < stale.len()
            invariant
                t <= stale@.len(),
                self.buf == old(self).buf,
                self.whole == old(self).whole,
                self.region == old(self).region,
                0 < csize,
                0 <= n <= u64::MAX,
                forall|s: int|
                    0 <= s < stale@.len() ==> (#[trigger] stale@[s]).0.0 == key && (stale@[
                        s
                    ].0.1 as int) >= n,
                forall|j2: u64|
                    (j2 as int) >= n && #[trigger] m1.contains_key((key, j2)) ==> exists|s: int|
                        0 <= s < stale@.len() && (#[trigger] stale@[s]).0 == (key, j2),
                forall|i: u64|
                    (i as int) < n ==> #[trigger] self.chunk_map().contains_key((key, i)),
                forall|i: u64|
                    (i as int) < n ==> (#[trigger] self.chunk_map()[(key, i)]) == chunk_of(
                        data,
                        csize,
                        i as nat,
                    ),
                forall|k: (u64, u64)|
                    k.0 != key ==> ((#[trigger] self.chunk_map().contains_key(k) <==> m0.contains_key(
                        k,
                    )) && (m0.contains_key(k) ==> self.chunk_map()[k] == m0[k])),
                forall|s: int|
                    0 <= s < t ==> !self.chunk_map().contains_key((#[trigger] stale@[s]).0),
                forall|j2: u64|
                    (j2 as int) >= n && #[trigger] self.chunk_map().contains_key((key, j2))
                        ==> m1.contains_key((key, j2)),
            decreases stale@.len() - t,
        {
            let target = stale[t].0;
            let ghost mb = self.chunk_map();
            self.chunks.remove(target);
            proof {
                assert forall|i: u64| (i as int) < n implies self.chunk_map().contains_key(
                    (key, i),
                ) && (#[trigger] self.chunk_map()[(key, i)]) == chunk_of(
                    data,
                    csize,
                    i as nat,
                ) by {
                    assert(mb.contains_key((key, i)));
                    assert(mb[(key, i)] == chunk_of(data, csize, i as nat));
                    assert((target.1 as int) >= n);
                    assert(target != (key, i));
                }
            }
            t = t + 1;
        }
        proof {
            assert forall|j2: u64| #[trigger]
                self.chunk_map().contains_key((key, j2)) implies (j2 as int) < n by {
                if (j2 as int) >= n {
                    assert(m1.contains_key((key, j2)));
                    let s = choose|s: int| 0 <= s < stale@.len() && stale@[s].0 == (key, j2);
                    assert(!self.chunk_map().contains_key(stale@[s].0));
                }
            }
            assert(contiguous_upto(self.chunk_map(), key, n));
        }
        Ok((len, idx))
    }

    /// Splits the staging slot into chunks of `CHUNK_SIZE` bytes and
    /// stores them under `(key, 0), (key, 1), …`, as
    /// [`Self::store_buffer_chunked`] does at the fixed chunk size.
    pub fn store_buffer_4k(&mut self, key: u64) -> (r: Result<(usize, usize), StoreError>)
        ensures
            ByteStore::chunked_store_effect(
                *old(self),
                *final(self),
                key,
                CHUNK_SIZE as nat,
                r,
            ),
    {
        self.store_buffer_chunked(key, CHUNK_SIZE)
    }

    /// Loads the chunks of `key` into the staging slot by sequential point
    /// lookups from index zero, replacing the slot's contents, and returns
    /// the number of bytes loaded. Reconstruction stops silently at the
    /// first absent index: a gap truncates the result there.
    pub fn load_buffer_4k(&mut self, key: u64) -> (r: usize)
        ensures
            old(self).storage_unchanged(*final(self)),
            final(self).has_slot(),
            final(self).slot_bytes() == lookup_join(old(self).chunk_map(), key, 0),
            r == final(self).slot_bytes().len(),
    {
        let ghost m = self.chunk_map();
        let mut acc: Vec<u8> = Vec::new();
        let mut idx: u64 = 0;
        loop
            invariant_except_break
                self.buf == old(self).buf,
                self.whole == old(self).whole,
                self.chunks == old(self).chunks,
                self.region == old(self).region,
                m == self.chunk_map(),
                lookup_join(m, key, 0) == acc@ + lookup_join(m, key, idx as int),
            ensures
                self.buf == old(self).buf,
                self.whole == old(self).whole,
                self.chunks == old(self).chunks,
                self.region == old(self).region,
                acc@ == lookup_join(m, key, 0),
                m == self.chunk_map(),
            decreases u64::MAX - idx,
        {
            match self.chunks.get((key, idx)) {
                None => {
                    proof {
                        assert(lookup_join(m, key, idx as int) =~= Seq::<u8>::empty());
                        assert(acc@ =~= acc@ + lookup_join(m, key, idx as int));
                    }
                    break;
                },
                Some(chunk) => {
                    proof {
                        if idx < u64::MAX {
                            assert(lookup_join(m, key, idx as int) == m[(key, idx)]
                                + lookup_join(m, key, idx as int + 1));
                        } else {
                            assert(lookup_join(m, key, idx as int) == m[(key, idx)]);
                        }
                    }
                    append_bytes(&mut acc, chunk.as_slice());
                    if idx == u64::MAX {
                        proof {
                            assert(lookup_join(m, key, 0) =~= acc@);
                        }
                        break;
                    }
                    idx = idx + 1;
                },
            }
        }
        let n = acc.len();
        self.buf = Some(acc);
        n
    }

    /// Loads the chunks of `key` into the staging slot by one ordered range
    /// scan over `[(key, 0), (key + 1, 0))`, replacing the slot's contents,
    /// and returns the number of bytes loaded. The largest buffer id has no
    /// successor to bound such a scan, so it is excluded. Every present chunk of the
    /// buffer id is included in ascending index order; a gap is skipped,
    /// not detected.
    pub fn load_buffer_4k_ranged(&mut self, key: u64) -> (r: usize)
        requires
            key < u64::MAX,
        ensures
            old(self).storage_unchanged(*final(self)),
            final(self).has_slot(),
            final(self).slot_bytes() == ranged_join(old(self).chunk_map(), key),
            r == final(self).slot_bytes().len(),
    {
        let ghost m = self.chunk_map();
        let entries = self.chunks.range_entries((key, 0), (key + 1, 0));
        proof {
            assert forall|i: int| 0 <= i < entries@.len() implies (#[trigger] entries@[i]).0.0
                == key by {
                assert(lex_le((key, 0), entries@[i].0) && lex_lt(entries@[i].0, ((key + 1) as u64, 0u64)));
            }
        }
        let ghost all_ks = entries@.map_values(|e: ((u64, u64), Vec<u8>)| e.0.1);
        let mut acc: Vec<u8> = Vec::new();
        let mut i: usize = 0;
        while i < entries.len()
            invariant
                i <= entries.len(),
                m == self.chunk_map(),
                forall|t: int| 0 <= t < entries@.len() ==> (#[trigger] entries@[t]).0.0 == key
                    && m.contains_key(entries@[t].0) && entries@[t].1@ == m[entries@[t].0],
                all_ks == entries@.map_values(|e: ((u64, u64), Vec<u8>)| e.0.1),
                acc@ == crate::chunking::join_indices(m, key, all_ks.take(i as int)),
            decreases entries@.len() - i,
        {
            let ghost before = all_ks.take(i as int);
            proof {
                assert(all_ks.take(i as int + 1) =~= before.push(entries@[i as int].0.1));
                crate::chunking::lemma_join_indices_push(m, key, before, entries@[
                    i as int
                ].0.1);
                assert((key, entries@[i as int].0.1) == entries@[i as int].0);
            }
            append_bytes(&mut acc, entries[i].1.as_slice());
            i = i + 1;
        }
        proof {
            assert(all_ks.take(entries@.len() as int) =~= all_ks);
            assert forall|a: int, b: int| 0 <= a < b < all_ks.len() implies all_ks[a]
                < all_ks[b] by {
                assert(lex_lt(entries@[a].0, entries@[b].0));
            }
            assert forall|j: u64|
                (j as int) < 0x1_0000_0000_0000_0000 && #[trigger] m.contains_key(
                    (key, j),
                ) implies all_ks.contains(j) by {
                assert(lex_le((key, 0), (key, j)) && lex_lt((key, j), ((key + 1) as u64, 0u64)));
                let t = choose|t: int| 0 <= t < entries@.len() && (#[trigger] entries@[t]).0 == (
                key,
                j,
                );
                assert(all_ks[t] == j);
            }
            crate::chunking::lemma_sorted_complete_indices(
                m,
                key,
                all_ks,
                0x1_0000_0000_0000_0000,
            );
        }
        let n = acc.len();
        self.buf = Some(acc);
        n
    }

    /// Deletes the chunk record under `(key, idx)`, returning whether one
    /// was present. This is the one way to punch a gap into a stored
    /// buffer's index range, after which the two reconstruction strategies
    /// diverge.
    pub fn remove_chunk(&mut self, key: u64, idx: u64) -> (r: bool)
        ensures
            final(self).has_slot() == old(self).has_slot(),
            final(self).slot_bytes() == old(self).slot_bytes(),
            final(self).whole_map() == old(self).whole_map(),
            final(self).region_bytes() == old(self).region_bytes(),
            final(self).chunk_map() == old(self).chunk_map().remove((key, idx)),
            r == old(self).chunk_map().contains_key((key, idx)),
    {
        match self.chunks.remove((key, idx)) {
            Some(_) => true,
            None => false,
        }
    }

    /// The chunk record stored under `(key, idx)`, if any.
    pub fn chunk(&self, key: u64, idx: u64) -> (r: Option<Vec<u8>>)
        ensures
            match r {
                Some(v) => self.chunk_map().contains_key((key, idx)) && v@ == self.chunk_map()[
                    (key, idx)
                ],
                None => !self.chunk_map().contains_key((key, idx)),
            },
    {
        self.chunks.get((key, idx))
    }

    /// Round trip through the store: after a chunked store of the slot,
    /// either reconstruction — the chain of point lookups and the ordered
    /// range scan — rebuilds exactly the bytes that were stored, whatever
    /// the key held before.
    pub proof fn lemma_store_then_load_roundtrip(
        pre: ByteStore,
        post: ByteStore,
        key: u64,
        csize: nat,
        r: Result<(usize, usize), StoreError>,
    )
        requires
            csize > 0,
            pre.slot_bytes().len() <= u64::MAX,
            ByteStore::chunked_store_effect(pre, post, key, csize, r),
            r is Ok,
        ensures
            lookup_join(post.chunk_map(), key, 0) == pre.slot_bytes(),
            ranged_join(post.chunk_map(), key) == pre.slot_bytes(),
    {
        crate::chunking::lemma_chunked_roundtrip(post.chunk_map(), key, pre.slot_bytes(), csize);
        crate::chunking::lemma_chunked_stored_contiguous(
            post.chunk_map(),
            key,
            pre.slot_bytes(),
            csize,
        );
        crate::chunking::lemma_join_strategies_agree(post.chunk_map(), key);
    }

    /// Decodes the slot's bytes in `[offset, offset + size)` as UTF-8 text.
    /// Fails with `OutOfBounds` when the slot was never initialized or the
    /// range reaches past its end, and with `InvalidEncoding` when those
    /// bytes are not valid UTF-8.
    pub fn read_buffer(&self, offset: usize, size: usize) -> (r: Result<String, StoreError>)
        ensures
            match r {
                Ok(s) => self.has_slot() && offset + size <= self.slot_bytes().len()
                    && valid_utf8(self.slot_bytes().subrange(offset as int, offset + size))
                    && s@ == decode_utf8(
                    self.slot_bytes().subrange(offset as int, offset + size),
                ),
                Err(e) => {
                    &&& e == StoreError::OutOfBounds || e == StoreError::InvalidEncoding
                    &&& e == StoreError::OutOfBounds <==> (!self.has_slot() || offset + size
                        > self.slot_bytes().len())
                    &&& e == StoreError::InvalidEncoding <==> (self.has_slot() && offset + size
                        <= self.slot_bytes().len() && !valid_utf8(
                        self.slot_bytes().subrange(offset as int, offset + size),
                    ))
                },
            },
    {
        let b = match &self.buf {
            Some(b) => b,
            None => {
                return Err(StoreError::OutOfBounds);
            },
        };
        if size > b.len() || offset > b.len() - size {
            return Err(StoreError::OutOfBounds);
        }
        let window = vstd::slice::slice_subrange(b.as_slice(), offset, offset + size);
        match try_decode_utf8(window) {
            Some(text) => {
                let s = text.to_owned();
                proof {
                    vstd::utf8::encode_utf8_decode_utf8(s@);
                }
                Ok(s)
            },
            None => Err(StoreError::InvalidEncoding),
        }
    }
}

/// Storing under one key twice overwrites: the keyspace after the second
/// store is the same as if the first store never happened, and the record
/// under the key holds only the newest value.
pub proof fn lemma_whole_store_overwrites(
    m: Map<u64, Seq<u8>>,
    key: u64,
    first: Seq<u8>,
    second: Seq<u8>,
)
    ensures
        m.insert(key, first).insert(key, second) == m.insert(key, second),
        m.insert(key, first).insert(key, second)[key] == second,
{
    assert(m.insert(key, first).insert(key, second) =~= m.insert(key, second));
}

} // verus!
