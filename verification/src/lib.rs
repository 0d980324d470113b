//! Copy-on-write memory and filesystem state for forkable microVMs.

pub mod bytes;
pub mod cache;
pub mod census;
pub mod fork;
pub mod io;
pub mod layered;
pub mod ordered;
pub mod redox;
pub mod text;
pub mod virtio;
pub mod vmm;
