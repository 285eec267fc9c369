//! The store's sizing options and their documented defaults.

use vstd::prelude::*;

verus! {

/// Sizing options for a store.  They are fixed when the store is opened and
/// must match the configuration the file was first written with; the file
/// format does not embed them.
#[derive(Clone, Copy, Debug)]
pub struct StorageConfig {
    /// Size in bytes of every page, the metadata page included.
    pub page_size: u16,
    /// Inserts with a longer key are rejected.
    pub max_key_size: u16,
    /// Inserts with a longer value are rejected.
    pub max_val_size: u16,
    /// Byte offset of the metadata page.
    pub metadata_offset: u64,
    /// Byte offset of the initial root page.
    pub first_page_offset: u64,
    /// A non-root node whose encoded size falls below this is underfull.
    pub min_node_size: u16,
}

impl StorageConfig {
    /// A configuration the store can operate under: pages hold at least the
    /// metadata root pointer and one empty entry, the metadata page sits at
    /// offset zero, and the first node page follows it immediately.
    pub open spec fn wf(self) -> bool {
        &&& self.page_size >= 16
        &&& self.metadata_offset == 0
        &&& self.first_page_offset == self.page_size as u64
        &&& self.min_node_size <= self.page_size
    }
}

/// The documented default configuration: 4096-byte pages, keys up to 1000
/// bytes, values up to 3000 bytes, underfull threshold a quarter page.
pub open spec fn spec_default() -> StorageConfig {
    StorageConfig {
        page_size: 4096,
        max_key_size: 1000,
        max_val_size: 3000,
        metadata_offset: 0,
        first_page_offset: 4096,
        min_node_size: 1024,
    }
}

impl Default for StorageConfig {
    /// The documented defaults, as [`spec_default`] writes them out.
    fn default() -> (c: StorageConfig)
        ensures
            c == spec_default(),
            c.wf(),
    {
        StorageConfig {
            page_size: 4096,
            max_key_size: 1000,
            max_val_size: 3000,
            metadata_offset: 0,
            first_page_offset: 4096,
            min_node_size: 1024,
        }
    }
}

} // verus!
