//! The store: entries by key.

pub mod memstorage;
pub mod storage;

pub use memstorage::MemStorage;
pub use storage::Storage;
