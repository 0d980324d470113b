//! The filesystem devices of a guest and the filesystems in this process that serve them.

use vstd::prelude::*;

use crate::io::IoError;
#[allow(unused_imports)]
use crate::ordered::{among, lemma_among};

verus! {

/// The filesystem devices that a guest is configured with, as far as they are read here.
#[derive(Debug)]
pub struct FsConfig {
    pub tag: String,
    pub num_queues: usize,
    pub queue_size: u16,
    /// The filesystem in this process that serves the device.
    pub in_process_backend_id: Option<u64>,
    pub dax_window_size: u64,
}

/// A filesystem in this process, as devices find it.
#[derive(Clone, Copy, Debug, Eq, PartialEq, Structural)]
pub struct InProcessFilesystem {
    pub backend_id: u64,
    pub dax_window_size: u64,
}

/// A device served by another filesystem in this process.
pub open spec fn served_by(device: FsConfig, backend: u64, window: u64) -> FsConfig {
    FsConfig { in_process_backend_id: Some(backend), dax_window_size: window, ..device }
}

/// Whether this is the device under which a guest finds the filesystem of its branch.
pub open spec fn is_branch_device(device: FsConfig, backend: u64, window: u64) -> bool {
    &&& device.tag@ == "minidox"@
    &&& device.num_queues == 1
    &&& device.queue_size == 1024
    &&& device.in_process_backend_id == Some(backend)
    &&& device.dax_window_size == window
}

/// The device under which a guest finds the filesystem of its branch.
pub fn branch_device(backend: u64, window: u64) -> (device: FsConfig)
    ensures
        is_branch_device(device, backend, window),
{
    FsConfig {
        tag: "minidox".to_owned(),
        num_queues: 1,
        queue_size: 1024,
        in_process_backend_id: Some(backend),
        dax_window_size: window,
    }
}

/// The devices of a configuration, which may have no list of them.
pub open spec fn listed_devices(devices: Option<Vec<FsConfig>>) -> Seq<FsConfig> {
    match devices {
        Some(devices) => devices@,
        None => Seq::empty(),
    }
}

/// Adds the device under which a guest finds the filesystem of its branch.
pub fn add_branch_device(devices: Option<Vec<FsConfig>>, filesystem: InProcessFilesystem) -> (r: Vec<FsConfig>)
    ensures
        r@.len() == listed_devices(devices).len() + 1,
        r@.drop_last() == listed_devices(devices),
        is_branch_device(r@.last(), filesystem.backend_id, filesystem.dax_window_size),
{
    let mut r = match devices {
        Some(devices) => devices,
        None => Vec::new(),
    };
    let ghost before = r@;
    r.push(branch_device(filesystem.backend_id, filesystem.dax_window_size));
    assert(r@.drop_last() =~= before);
    r
}

/// The places of the devices that are served in this process, among the first `n`.
pub open spec fn served_in_process(devices: Seq<FsConfig>, n: int) -> Seq<usize>
    decreases n,
{
    if n <= 0 {
        Seq::empty()
    } else if devices[n - 1].in_process_backend_id is Some {
        served_in_process(devices, n - 1).push((n - 1) as usize)
    } else {
        served_in_process(devices, n - 1)
    }
}

/// The places of the devices that are served in this process.
pub fn in_process_filesystems(devices: &Vec<FsConfig>) -> (places: Vec<usize>)
    ensures
        places@ == served_in_process(devices@, devices@.len() as int),
{
    let mut places: Vec<usize> = Vec::new();
    let mut i: usize = 0;
    while i < devices.len()
        invariant
            i <= devices@.len(),
            places@ == served_in_process(devices@, i as int),
        decreases devices@.len() - i,
    {
        if devices[i].in_process_backend_id.is_some() {
            places.push(i);
        }
        i += 1;
    }
    places
}

/// The devices once those that were served in this process are handed to another filesystem.
pub open spec fn retargeted(devices: Seq<FsConfig>, backend: u64, window: u64) -> Seq<FsConfig> {
    devices.map_values(|device: FsConfig| if device.in_process_backend_id is Some { served_by(device, backend, window) } else { device })
}

/// Hands the devices that were served in this process to a child's filesystem.
pub fn retarget_filesystems(devices: &mut Vec<FsConfig>, backend: u64, window: u64)
    ensures
        final(devices)@ == retargeted(old(devices)@, backend, window),
{
    let ghost before = devices@;
    let mut i: usize = 0;
    while i < devices.len()
        invariant
            i <= devices@.len(),
            devices@.len() == before.len(),
            forall|j: int| i <= j < before.len() ==> devices@[j] == #[trigger] before[j],
            forall|j: int| 0 <= j < i ==> #[trigger] devices@[j] == (if before[j].in_process_backend_id is Some {
                served_by(before[j], backend, window)
            } else {
                before[j]
            }),
        decreases devices@.len() - i,
    {
        if devices[i].in_process_backend_id.is_some() {
            devices[i].in_process_backend_id = Some(backend);
            devices[i].dax_window_size = window;
        }
        i += 1;
    }
}

/// Whether all these places are places of devices.
pub open spec fn places_fit(places: Seq<usize>, devices: nat) -> bool {
    forall|k: int| 0 <= k < places.len() ==> #[trigger] places[k] < devices
}

/// Hands the devices at these places to a filesystem in this process.
pub fn attach_filesystems(devices: &mut Vec<FsConfig>, places: &Vec<usize>, backend: u64, window: u64) -> (r: Result<(), IoError>)
    ensures
        match r {
            Ok(()) => {
                &&& places_fit(places@, old(devices)@.len())
                &&& final(devices)@ == Seq::new(
                    old(devices)@.len(),
                    |i: int| if places@.contains(i as usize) { served_by(old(devices)@[i], backend, window) } else { old(devices)@[i] },
                )
            },
            Err(e) => {
                &&& !places_fit(places@, old(devices)@.len())
                &&& e == IoError::InvalidData("in-process filesystem index is outside VM config")
            },
        },
{
    let ghost before = devices@;
    let mut k: usize = 0;
    while k < places.len()
        invariant
            k <= places@.len(),
            devices@.len() == before.len(),
            before == old(devices)@,
            places_fit(places@.take(k as int), before.len()),
            forall|i: int| 0 <= i < before.len() ==> #[trigger] devices@[i] == (if among(places@, k as int, i as usize) {
                served_by(before[i], backend, window)
            } else {
                before[i]
            }),
        decreases places@.len() - k,
    {
        let at: usize = places[k];
        if at >= devices.len() {
            assert(places@[k as int] >= before.len());
            return Err(IoError::InvalidData("in-process filesystem index is outside VM config"));
        }
        devices[at].in_process_backend_id = Some(backend);
        devices[at].dax_window_size = window;
        proof {
            lemma_among(places@, k as int);
            assert(places@.take(k + 1) =~= places@.take(k as int).push(at));
        }
        k += 1;
    }
    assert(places@.take(places@.len() as int) =~= places@);
    assert forall|i: usize| among(places@, places@.len() as int, i) == #[trigger] places@.contains(i) by {
    }
    Ok(())
}

} // verus!
