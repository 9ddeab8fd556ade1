//! A deduplicating backup engine: archives whose file contents are ordered
//! lists of chunk identifiers, a content-addressed chunk index with reference
//! counts, and the rules that tie the two together.

pub mod archive;
pub mod chunks;
pub mod compression;
pub mod fidelity;
pub mod repository;
pub mod stream;
pub mod varint;
