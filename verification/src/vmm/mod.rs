//! In-process VMM boundary: supervision, RAM generations, the atomic RAM and filesystem fork
//! barrier, and the virtio-fs DAX device.

pub mod barrier;
pub mod checkpoint;
pub mod creation;
pub mod devices;
pub mod error;
pub mod forking;
pub mod host;
pub mod opening;
pub mod opening_laws;
pub mod ram;
pub mod ram_laws;
pub mod stage_laws;
pub mod supervisor;
pub mod virtiofs;
pub mod window_laws;
pub mod worker;

pub use error::Error;
pub use host::is_supported_host;
