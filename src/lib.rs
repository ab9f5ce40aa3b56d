//! A log-structured key-value store in the manner of BitCask: the on-disk entry format,
//! the ordered in-memory index, the open-time recovery scan and compaction, with their
//! contracts proved.

pub mod engine;
pub mod entry;
pub mod keydir;
pub mod laws;
pub mod recovery;

pub use engine::BitCask;
pub use entry::encode_entry;
pub use keydir::{KeyBound, Slot};
