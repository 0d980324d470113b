//! Virtio devices: what they decide, keep and save.

pub mod codec;
pub mod console;
pub mod laws;
pub mod pmem;
pub mod snapshot;
pub mod vsock;
