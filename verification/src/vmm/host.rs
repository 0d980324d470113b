//! What the host has to be.

use vstd::prelude::*;

verus! {

/// Whether a build for the given operating system can instantiate the KVM-backed VMM.
pub fn is_supported_host(target_os: &str) -> (b: bool)
    ensures
        b == (target_os@ == "linux"@),
{
    target_os.to_owned() == "linux".to_owned()
}

} // verus!
