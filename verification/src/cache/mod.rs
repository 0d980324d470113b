//! One shared mmap/DAX page cache for all handles and VM sessions of a filesystem.

pub mod dirty;
pub mod files;
pub mod laws;
pub mod page_cache;
pub mod page_cache_laws;
pub mod store;
pub mod shared;
pub mod shared_laws;
pub mod visible;
