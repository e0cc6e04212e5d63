//! A persistent, single-process key/value store over an append-only log.
//!
//! The store keeps string keys and values as opaque byte blobs.  Every
//! mutation is appended to the active generation's log as a self-delimiting
//! record; an in-memory index maps each key to the position of the most
//! recent `Put` record for it, and compaction rewrites the live records into
//! a fresh generation when enough dead bytes have accumulated.
//!
//! The engine itself never touches the file system: it works on in-memory
//! images of the generation files and reports the writes it performed as
//! [`kv::Effect`] values, which a thin shell replays onto real files.

use vstd::prelude::*;

pub mod codec;
pub mod names;
pub mod index;
pub mod wal;
pub mod kv;
pub mod mem;

pub use kv::KvStore;
pub use names::{log_path, log_file_name, sorted_gen_list};


verus! {

/// Errors surfaced by the store.
#[derive(Debug, PartialEq, Eq, Structural, Clone, Copy)]
pub enum KvsError {
    /// `remove` was called for a key that is not present.
    KeyNotFound,
    /// A fresh generation number could not be reserved without wrapping.
    GenerationOverflow,
    /// A stored value is not valid UTF-8 and cannot be returned as a string.
    ValueNotUtf8,
}

} // verus!
