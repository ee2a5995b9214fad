//! A disk-usage inventory: entries discovered under a root are kept in a
//! flat, key-addressed store, and entry counts and total sizes are computed
//! by walking that store.

pub mod crawl;
pub mod dir;
pub mod entry;
pub mod file;
pub mod observe;
pub mod outcome;
pub mod scheduler;
pub mod store;
pub mod subtree;
pub mod ui;

pub use crawl::Listing;
pub use dir::DirEntry;
pub use entry::Entry;
pub use entry::EntryWrapper;
pub use entry::EntryView;
pub use file::FileEntry;
pub use observe::EntryError;
pub use observe::ErrorKind;
pub use observe::NameProbe;
pub use observe::PathInfo;
pub use observe::Stat;
pub use observe::Timestamp;
pub use scheduler::Scheduler;
pub use store::MemStorage;
pub use store::Storage;
pub use ui::Key;
pub use ui::UIEntry;
