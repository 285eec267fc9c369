//! An embedded, single-file, persistent ordered key-value store built around a
//! copy-on-write B+ tree.
//!
//! The database file is modelled as an in-memory byte image: a page codec
//! ([`node`]), a page-level disk manager over the image ([`diskmanager`]) and
//! the copy-on-write tree engine ([`btree`]) are all verified.  Reading and
//! writing the real file, and flushing it, is left to the host program, which
//! hands the image in and out as plain bytes.

pub mod btree;
pub mod bytes;
pub mod configs;
pub mod diskmanager;
pub mod entries;
pub mod errors;
pub mod keys;
pub mod node;
