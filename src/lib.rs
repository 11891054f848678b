//! A log-structured key-value store: records of commands are appended to
//! numbered segment files, each segment keeps an index from key to the offset
//! of the key's latest record, and old segments are compacted down to the
//! records their index still points at.
//!
//! The library holds the store's logic and proves it: the record codec, the
//! segment index with its append, replay and read rules, the segment set with
//! its identifiers, and the compaction rules. Reading and writing the files is
//! left to the caller, which hands the library the lines it read and writes
//! the lines the library returns.

pub mod codec;
pub mod segment;
pub mod compaction;
pub mod naming;
pub mod files;
pub mod layout;
