//! Branches of a RedoxFS filesystem over shared immutable disk blocks.

pub mod identity;
pub mod laws;
pub mod records;
pub mod durable;
pub mod durable_laws;
pub mod disk;
pub mod disk_laws;
pub mod branch;
