//! A byte-buffer store over page-oriented stable storage.
//!
//! A single staging buffer (the *slot*) is filled by appends and then
//! persisted in one of three ways: as one whole record in an ordered map,
//! as fixed-size chunks under composite `(buffer id, chunk index)` keys,
//! or written directly into a flat, growable memory region. Loads rebuild
//! the slot from storage, either by sequential point lookups or by one
//! ordered range scan.

pub mod backing;
pub mod chunking;
pub mod errors;
pub mod store;

pub use errors::StoreError;
pub use store::ByteStore;
