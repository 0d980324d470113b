//! Saved device state.

use vstd::prelude::*;
use vstd::string::StringExecFns;

verus! {

/// Why device state could not be saved or read back.
#[derive(Debug)]
pub enum DeviceSnapshotError {
    /// The device cannot be saved.
    Unsupported(String),
    /// The device must not be saved now.
    Refused(String),
    /// The payload could not be written or read.
    Codec(String),
    /// The state does not fit the device.
    Invalid(String),
}

impl DeviceSnapshotError {
    /// The error in words.
    pub fn message(&self) -> (text: String)
        ensures
            text@ == (match *self {
                DeviceSnapshotError::Unsupported(device) => "device "@ + device@ + " does not support snapshot"@,
                DeviceSnapshotError::Refused(reason) => reason@,
                DeviceSnapshotError::Codec(reason) => "device snapshot codec error: "@ + reason@,
                DeviceSnapshotError::Invalid(reason) => "device snapshot invalid: "@ + reason@,
            }),
    {
        match self {
            DeviceSnapshotError::Unsupported(device) => {
                let mut text: String = "device ".to_owned();
                text.append(device.as_str());
                text.append(" does not support snapshot");
                text
            },
            DeviceSnapshotError::Refused(reason) => reason.clone(),
            DeviceSnapshotError::Codec(reason) => {
                let mut text: String = "device snapshot codec error: ".to_owned();
                text.append(reason.as_str());
                text
            },
            DeviceSnapshotError::Invalid(reason) => {
                let mut text: String = "device snapshot invalid: ".to_owned();
                text.append(reason.as_str());
                text
            },
        }
    }
}

/// Whether an error tells that state does not fit the device, in these words.
pub open spec fn is_invalid(e: DeviceSnapshotError, text: Seq<char>) -> bool {
    e matches DeviceSnapshotError::Invalid(reason) && reason@ == text
}

/// The state of one device: one queue state for each queue, in order, and the payload.
#[derive(Debug)]
pub struct DeviceSnapshot<Q> {
    pub queues: Vec<Q>,
    pub payload: Vec<u8>,
}

/// Why a device was not activated.
#[derive(Clone, Copy, Debug, Eq, PartialEq, Structural)]
pub enum ActivateError {
    BadActivate,
}

} // verus!
