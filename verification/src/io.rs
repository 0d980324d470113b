//! Failures of the storage below the library.

use vstd::prelude::*;

verus! {

/// Why an operation on storage failed.
#[derive(Debug)]
pub enum IoError {
    /// The operating system's error number.
    Os(i32),
    /// The thing to be made exists already.
    AlreadyExists(&'static str),
    /// Stored data does not have the form it should have.
    InvalidData(&'static str),
    /// Less was written than asked for.
    WriteZero(&'static str),
    /// Anything else, in words.
    Other(String),
}

pub const ENOENT: i32 = 2;

pub const EIO: i32 = 5;

pub const EBUSY: i32 = 16;

pub const ENODEV: i32 = 19;

pub const EINVAL: i32 = 22;

pub const EOVERFLOW: i32 = 75;

} // verus!
