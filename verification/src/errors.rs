//! The failure modes of the store.

use vstd::prelude::*;

verus! {

/// Why a store, load or read operation failed.
///
/// No operation recovers from any of these: each one is a hard failure of
/// that single call, and storage committed by earlier calls is untouched.
#[derive(Clone, Copy, Debug, PartialEq, Eq, Structural)]
pub enum StoreError {
    /// A point lookup found no record under the given key.
    AbsentEntry,
    /// A value was larger than the bound declared for its keyspace.
    SizeExceeded,
    /// A read past the end of the slot, or any access to a slot that was
    /// never initialized.
    OutOfBounds,
    /// The requested byte range is not valid UTF-8 text.
    InvalidEncoding,
    /// The flat memory region could not grow to the required page count.
    ResourceExhaustion,
}

} // verus!
