[package]
name = "minidox"
version = "0.1.0"
edition = "2021"
publish = false

[dependencies]
bincode = "1.3"
libc = "0.2"
log = "0.4"
redox_syscall = "*"
redoxfs = { version = "*", default-features = false, features = ["std"] }
serde = { version = "1", features = ["derive"] }
serde_json = "1"
tempfile = "3"
thiserror = "*"
