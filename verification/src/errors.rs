//! The store's error type.

use vstd::prelude::*;

verus! {

/// The failures a store operation can report.  I/O failures of the host file
/// are not among them: the library works on an in-memory image, and the host
/// program surfaces its own read, write and flush errors.
#[derive(Clone, Copy, Debug, PartialEq, Eq, Structural)]
pub enum StorageError {
    /// The key handed to `insert` is longer than `max_key_size`.
    KeyTooLarge,
    /// The value handed to `insert` is longer than `max_val_size`.
    ValueTooLarge,
    /// A page's fields are inconsistent with its size.
    CorruptPage,
    /// A rewritten or rebalanced node cannot be made to fit one page.
    PageOverflow,
}

} // verus!
