//! Atomic memory and filesystem generation ownership for a fork forest.

pub mod forest;
pub mod laws;
pub mod pages;
pub mod supervisor;

pub use forest::{Error, ForkForest, PageAccounting, SpaceAccounting, VmId};
pub use pages::PAGE_SIZE;
pub use supervisor::Supervisor;
