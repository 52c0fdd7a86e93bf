//! An embedded, single-file, persistent key-value store ("ASS v1").
//!
//! Keys and values are arbitrary byte strings. The store is backed by one
//! append-and-patch byte file holding a bitwise binary trie index whose
//! fixed-size nodes live inside variable-size blocks managed by an in-file
//! first-fit allocator.

pub mod bitpath;
pub mod codec;
pub mod file;
pub mod laws;
pub mod listing;
pub mod store;

pub use file::ASSFile;
pub use file::MemFile;
pub use store::ASS;
pub use store::OpeningError;
pub use listing::Lister;
pub use listing::Task;
pub use bitpath::bits;
pub use laws::chain_ok;
pub use codec::u64_at;
pub use codec::u64_from_be;
pub use codec::u64_to_be;
pub use codec::store_at;
