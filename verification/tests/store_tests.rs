use chunk_store::{ByteStore, StoreError};

const CHUNK: usize = 4096;

#[test]
fn write_memory_test() {
    let mut store = ByteStore::new();
    let len = store.append_buffer("abc1234567", 10_000_000);
    assert_eq!(len, 100_000_000);
    let written = store.store_into_memory(0).unwrap();
    assert_eq!(written, 100_000_000);
}

#[test]
fn append_builds_slot() {
    let mut store = ByteStore::new();
    assert_eq!(store.append_buffer("ab", 3), 6);
    assert_eq!(store.buffer_size().unwrap(), 6);
    assert_eq!(store.read_buffer(0, 6).unwrap(), "ababab");
    assert_eq!(store.append_buffer("cd", 1), 8);
    assert_eq!(store.read_buffer(0, 8).unwrap(), "abababcd");
}

#[test]
fn chunked_end_to_end() {
    let mut store = ByteStore::new();
    assert_eq!(store.append_buffer("ab", 3), 6);
    let (bytes, count) = store.store_buffer_chunked(7, 4).unwrap();
    assert_eq!(bytes, 6);
    assert_eq!(count, 2);
    assert_eq!(store.chunk(7, 0).unwrap(), b"abab".to_vec());
    assert_eq!(store.chunk(7, 1).unwrap(), b"ab".to_vec());
    assert!(store.chunk(7, 2).is_none());
    let loaded = store.load_buffer_4k_ranged(7);
    assert_eq!(loaded, 6);
    assert_eq!(store.read_buffer(0, 6).unwrap(), "ababab");
}

#[test]
fn chunk_count_and_last_chunk_size() {
    let mut store = ByteStore::new();
    // 2.5 chunks: two full chunks and a final one of half size.
    let len = store.append_buffer("x", 2 * CHUNK + CHUNK / 2);
    assert_eq!(len, 10240);
    let (bytes, count) = store.store_buffer_4k(3).unwrap();
    assert_eq!(bytes, 10240);
    assert_eq!(count, 3);
    assert_eq!(store.chunk(3, 0).unwrap().len(), CHUNK);
    assert_eq!(store.chunk(3, 1).unwrap().len(), CHUNK);
    assert_eq!(store.chunk(3, 2).unwrap().len(), CHUNK / 2);
    // An exact multiple: the last chunk is full.
    let mut exact = ByteStore::new();
    exact.append_buffer("y", 2 * CHUNK);
    let (_, n) = exact.store_buffer_4k(4).unwrap();
    assert_eq!(n, 2);
    assert_eq!(exact.chunk(4, 1).unwrap().len(), CHUNK);
    // An empty buffer stores zero chunks.
    let mut empty = ByteStore::new();
    empty.append_buffer("", 1);
    let (bytes, count) = empty.store_buffer_4k(5).unwrap();
    assert_eq!(bytes, 0);
    assert_eq!(count, 0);
    assert!(empty.chunk(5, 0).is_none());
}

#[test]
fn chunked_roundtrip_both_strategies() {
    let mut store = ByteStore::new();
    store.append_buffer("0123456789", 2000);
    let (bytes, count) = store.store_buffer_4k(11).unwrap();
    assert_eq!(bytes, 20000);
    assert_eq!(count, 5);
    let sequential = store.load_buffer_4k(11);
    assert_eq!(sequential, 20000);
    let by_lookup = store.read_buffer(0, 20000).unwrap();
    let ranged = store.load_buffer_4k_ranged(11);
    assert_eq!(ranged, 20000);
    let by_scan = store.read_buffer(0, 20000).unwrap();
    assert_eq!(by_lookup, by_scan);
    assert_eq!(&by_scan[0..10], "0123456789");
}

#[test]
fn chunked_store_overwrites_and_truncates_stale_chunks() {
    let mut store = ByteStore::new();
    store.append_buffer("a", 3 * CHUNK);
    let (_, first) = store.store_buffer_4k(1).unwrap();
    assert_eq!(first, 3);
    store.clear_buffer();
    store.append_buffer("b", CHUNK + 904);
    let (bytes, second) = store.store_buffer_4k(1).unwrap();
    assert_eq!(bytes, 5000);
    assert_eq!(second, 2);
    assert!(store.chunk(1, 2).is_none());
    let loaded = store.load_buffer_4k(1);
    assert_eq!(loaded, 5000);
    assert_eq!(&store.read_buffer(0, 5000).unwrap()[0..1], "b");
}

#[test]
fn chunked_store_clears_stale_chunks_beyond_a_gap() {
    let mut store = ByteStore::new();
    store.append_buffer("s", 5 * CHUNK);
    let (_, count) = store.store_buffer_4k(6).unwrap();
    assert_eq!(count, 5);
    // Punch a gap, then store a one-chunk buffer under the same id: every
    // record at or above the new count must be gone, gap or not.
    assert!(store.remove_chunk(6, 1));
    store.clear_buffer();
    store.append_buffer("t", 7);
    let (bytes, count) = store.store_buffer_4k(6).unwrap();
    assert_eq!((bytes, count), (7, 1));
    assert!(store.chunk(6, 1).is_none());
    assert!(store.chunk(6, 2).is_none());
    assert!(store.chunk(6, 4).is_none());
    let ranged = store.load_buffer_4k_ranged(6);
    assert_eq!(ranged, 7);
    let sequential = store.load_buffer_4k(6);
    assert_eq!(sequential, 7);
    assert_eq!(store.read_buffer(0, 7).unwrap(), "ttttttt");
}

#[test]
fn whole_record_overwrites() {
    let mut store = ByteStore::new();
    store.append_buffer("first", 1);
    store.store_buffer(42).unwrap();
    store.clear_buffer();
    store.append_buffer("second", 1);
    store.store_buffer(42).unwrap();
    let loaded = store.load_buffer(42).unwrap();
    assert_eq!(loaded, 6);
    assert_eq!(store.read_buffer(0, 6).unwrap(), "second");
}

#[test]
fn gap_truncation_splits_the_strategies() {
    let mut store = ByteStore::new();
    store.append_buffer("g", 5 * CHUNK);
    let (_, count) = store.store_buffer_4k(9).unwrap();
    assert_eq!(count, 5);
    assert!(store.remove_chunk(9, 2));
    assert!(!store.remove_chunk(9, 2));
    let sequential = store.load_buffer_4k(9);
    assert_eq!(sequential, 2 * CHUNK);
    let ranged = store.load_buffer_4k_ranged(9);
    assert_eq!(ranged, 4 * CHUNK);
    assert_ne!(sequential, ranged);
}

#[test]
fn region_pages_never_decrease() {
    let mut store = ByteStore::new();
    assert_eq!(store.memory_pages(), 0);
    store.append_buffer("m", 100);
    store.store_into_memory(0).unwrap();
    assert_eq!(store.memory_pages(), 1);
    store.store_into_memory(200_000).unwrap();
    assert_eq!(store.memory_pages(), 4);
    store.store_into_memory(0).unwrap();
    assert_eq!(store.memory_pages(), 4);
}

#[test]
fn flat_write_reads_back() {
    let mut store = ByteStore::new();
    store.append_buffer("flatdata", 1);
    store.store_into_memory(10).unwrap();
    assert_eq!(store.read_memory(10, 8).unwrap(), b"flatdata".to_vec());
    // Pages are zero-filled outside the written span.
    assert_eq!(store.read_memory(0, 10).unwrap(), vec![0u8; 10]);
    assert!(matches!(
        store.read_memory(65536, 1),
        Err(StoreError::OutOfBounds)
    ));
}

#[test]
fn unsatisfiable_growth_is_resource_exhaustion() {
    let mut store = ByteStore::new();
    store.append_buffer("x", 8);
    // The span overflows the 64-bit address space.
    assert!(matches!(
        store.store_into_memory(u64::MAX),
        Err(StoreError::ResourceExhaustion)
    ));
    // The span is addressable, but no memory can grow to that many pages.
    assert!(matches!(
        store.store_into_memory(u64::MAX - 100),
        Err(StoreError::ResourceExhaustion)
    ));
    assert_eq!(store.memory_pages(), 0);
}

#[test]
fn clear_on_uninitialized_slot_is_a_noop() {
    let mut store = ByteStore::new();
    store.clear_buffer();
    assert!(matches!(store.buffer_size(), Err(StoreError::OutOfBounds)));
    store.zero_buffer();
    assert!(matches!(store.buffer_size(), Err(StoreError::OutOfBounds)));
}

#[test]
fn clear_empties_a_populated_slot() {
    let mut store = ByteStore::new();
    store.append_buffer("data", 2);
    store.clear_buffer();
    assert_eq!(store.buffer_size().unwrap(), 0);
}

#[test]
fn zero_keeps_length_and_blanks_contents() {
    let mut store = ByteStore::new();
    store.append_buffer("ab", 1);
    store.zero_buffer();
    assert_eq!(store.buffer_size().unwrap(), 2);
    assert_eq!(store.read_buffer(0, 2).unwrap(), "\0\0");
}

#[test]
fn absent_whole_record_fails_the_load() {
    let mut store = ByteStore::new();
    assert!(matches!(
        store.load_buffer(404),
        Err(StoreError::AbsentEntry)
    ));
}

#[test]
fn oversized_whole_record_is_rejected() {
    let mut store = ByteStore::new();
    let piece = "z".repeat(10_100_001);
    store.append_buffer(&piece, 10);
    assert_eq!(store.buffer_size().unwrap(), 101_000_010);
    assert!(matches!(
        store.store_buffer(8),
        Err(StoreError::SizeExceeded)
    ));
    assert!(matches!(store.load_buffer(8), Err(StoreError::AbsentEntry)));
}

#[test]
fn stores_on_uninitialized_slot_fail() {
    let mut store = ByteStore::new();
    assert!(matches!(store.store_buffer(1), Err(StoreError::OutOfBounds)));
    assert!(matches!(
        store.store_buffer_4k(1),
        Err(StoreError::OutOfBounds)
    ));
    assert!(matches!(
        store.store_into_memory(0),
        Err(StoreError::OutOfBounds)
    ));
}

#[test]
fn read_range_errors() {
    let mut store = ByteStore::new();
    assert!(matches!(
        store.read_buffer(0, 0),
        Err(StoreError::OutOfBounds)
    ));
    store.append_buffer("ab", 1);
    assert!(matches!(
        store.read_buffer(0, 3),
        Err(StoreError::OutOfBounds)
    ));
    assert!(matches!(
        store.read_buffer(2, 1),
        Err(StoreError::OutOfBounds)
    ));
    assert_eq!(store.read_buffer(2, 0).unwrap(), "");
}

#[test]
fn read_range_rejects_torn_utf8() {
    let mut store = ByteStore::new();
    // A two-byte scalar: reading half of it is not valid UTF-8.
    store.append_buffer("\u{e9}", 1);
    assert_eq!(store.buffer_size().unwrap(), 2);
    assert!(matches!(
        store.read_buffer(0, 1),
        Err(StoreError::InvalidEncoding)
    ));
    assert_eq!(store.read_buffer(0, 2).unwrap(), "\u{e9}");
}

#[test]
fn empty_buffer_loads_as_empty() {
    let mut store = ByteStore::new();
    let loaded = store.load_buffer_4k(77);
    assert_eq!(loaded, 0);
    assert_eq!(store.buffer_size().unwrap(), 0);
    let ranged = store.load_buffer_4k_ranged(77);
    assert_eq!(ranged, 0);
}
