//! In which order the protocols take their operations, and what a whole fork comes to.

use vstd::prelude::*;

#[allow(unused_imports)]
use crate::vmm::barrier::{barrier_next, first_failure, Barrier, BarrierStage};
#[allow(unused_imports)]
use crate::vmm::checkpoint::{checkpoint_first, checkpoint_next, stage_fits, CheckpointStage};
#[allow(unused_imports)]
use crate::vmm::creation::{
    cloud_create_advanced, cloud_create_next, cloud_filesystem_made, create_advanced, create_next, filesystem_made, ram_made, CloudCreateStage,
    CloudCreationView, CreateStage, CreationView,
};
#[allow(unused_imports)]
use crate::vmm::devices::{is_branch_device, listed_devices, retargeted, served_in_process, FsConfig, InProcessFilesystem};
#[allow(unused_imports)]
use crate::vmm::error::{chained, Error};
#[allow(unused_imports)]
use crate::vmm::forking::{
    capture_taken, cloud_filesystem_taken, cloud_fork_advanced, cloud_fork_next, dirty_log_taken, filesystem_taken, fork_advanced, fork_next,
    hands_over, preparation_begun, CloudForkStage, CloudForkView, ForkCapture, ForkStage, ForkView, GuestFork,
};
#[allow(unused_imports)]
use crate::vmm::ram::{finishes, forks_at_once, generation_ids, named_pages, new_ram, new_ram_actions, page_ids, place, prepares, RamForkPlan, RamIds};
#[allow(unused_imports)]
use crate::vmm::ram_laws::{fork_carries_every_store, forked_ram_is_the_source_ram, listed_pages_are_named, prepared_fork_is_the_source_ram, RamWorld};
#[allow(unused_imports)]
use crate::vmm::supervisor::{access_begun, BackendKind, GuestView, KvmView, KvmVmId, SupervisorError};
#[allow(unused_imports)]
use crate::vmm::worker::{answers, registration_advanced, start_next, RamRegistration, SendFailure, StartStage};

verus! {

/// The first failure that counts is the one that stays; one that does not count leaves no trace.
pub proof fn first_failure_stays<E>(failure: Option<E>, counted: bool, outcome: Result<(), E>)
    ensures
        failure is Some ==> first_failure(failure, counted, outcome) == failure,
        failure is None && outcome is Err && counted ==> first_failure(failure, counted, outcome) == Some(outcome->Err_0),
        failure is None && (outcome is Ok || !counted) ==> first_failure(failure, counted, outcome) is None,
{
}

/// An access to a paused guest: the guest is paused, then accessed, then resumed, whether the access
/// succeeded or not; a guest that could not be paused is neither accessed nor resumed.
pub proof fn barrier_takes_its_operations_in_order(ok: bool)
    ensures
        barrier_next(BarrierStage::Pause, true) == BarrierStage::Operate,
        barrier_next(BarrierStage::Operate, ok) == BarrierStage::Resume,
        barrier_next(BarrierStage::Resume, ok) == BarrierStage::Done,
        barrier_next(BarrierStage::Pause, false) == BarrierStage::Done,
        barrier_next(BarrierStage::Done, ok) == BarrierStage::Done,
{
}

/// The operations of a fork that goes well, in order.
pub open spec fn fork_order() -> Seq<ForkStage> {
    seq![
        ForkStage::CreateChild,
        ForkStage::Pause,
        ForkStage::ForkFilesystem,
        ForkStage::ReadDirtyLog,
        ForkStage::CopyPages,
        ForkStage::MapSource,
        ForkStage::MapChild,
        ForkStage::RegisterChild,
        ForkStage::Resume,
        ForkStage::Done,
    ]
}

/// A fork that goes well leaves no operation out: it takes each once, in order. One that fails while the
/// source is paused goes on with resuming it; one that fails before is over. A child that was registered
/// is unregistered again where the source cannot be resumed.
pub proof fn fork_takes_its_operations_in_order(i: int, stage: ForkStage, failed: bool, ok: bool)
    ensures
        0 <= i < 9 ==> fork_next(fork_order()[i], false, true) == fork_order()[i + 1],
        2 <= i < 8 ==> fork_next(fork_order()[i], false, false) == ForkStage::Resume,
        0 <= i < 2 ==> fork_next(fork_order()[i], false, false) == ForkStage::Done,
        fork_next(ForkStage::Resume, false, false) == ForkStage::UnregisterChild,
        fork_next(ForkStage::Resume, true, ok) == ForkStage::Done,
        fork_next(ForkStage::UnregisterChild, failed, ok) == ForkStage::Done,
        fork_next(stage, failed, ok) == ForkStage::RegisterChild ==> stage == ForkStage::MapChild && ok,
        fork_next(stage, failed, ok) == ForkStage::MapChild ==> stage == ForkStage::MapSource && ok,
        fork_next(stage, failed, ok) == ForkStage::MapSource ==> stage == ForkStage::CopyPages && ok,
        fork_next(ForkStage::Done, failed, ok) == ForkStage::Done,
{
}

/// The operations of a fork of a guest with devices that goes well, in order.
pub open spec fn cloud_fork_order() -> Seq<CloudForkStage> {
    seq![
        CloudForkStage::TakeDirtyPages,
        CloudForkStage::PrepareRam,
        CloudForkStage::Pause,
        CloudForkStage::CaptureState,
        CloudForkStage::ForkFilesystem,
        CloudForkStage::CopyPages,
        CloudForkStage::MapSource,
        CloudForkStage::Resume,
        CloudForkStage::MapChild,
        CloudForkStage::StartWorker,
        CloudForkStage::RestoreState,
        CloudForkStage::BeginTracking,
        CloudForkStage::ResumeChild,
        CloudForkStage::Done,
    ]
}

/// So does a fork of a guest with devices; once the source runs again, a failure ends the fork.
pub proof fn cloud_fork_takes_its_operations_in_order(i: int, ok: bool)
    ensures
        0 <= i < 13 ==> cloud_fork_next(cloud_fork_order()[i], false, true) == cloud_fork_order()[i + 1],
        3 <= i < 7 ==> cloud_fork_next(cloud_fork_order()[i], false, false) == CloudForkStage::Resume,
        0 <= i < 3 || 7 <= i < 13 ==> cloud_fork_next(cloud_fork_order()[i], false, false) == CloudForkStage::Done,
        cloud_fork_next(CloudForkStage::Resume, true, ok) == CloudForkStage::Done,
        cloud_fork_next(CloudForkStage::Done, false, ok) == CloudForkStage::Done,
{
}

/// A guest is made in order: the machine, its RAM mapped and registered, its filesystem. Where the
/// filesystem cannot be made the RAM is unregistered again; an earlier failure ends the creation.
pub proof fn creation_takes_its_operations_in_order(ok: bool)
    ensures
        create_next(CreateStage::CreateVm, true) == CreateStage::MapRam,
        create_next(CreateStage::MapRam, true) == CreateStage::RegisterRam,
        create_next(CreateStage::RegisterRam, true) == CreateStage::CreateFilesystem,
        create_next(CreateStage::CreateFilesystem, true) == CreateStage::Done,
        create_next(CreateStage::CreateVm, false) == CreateStage::Done,
        create_next(CreateStage::MapRam, false) == CreateStage::Done,
        create_next(CreateStage::RegisterRam, false) == CreateStage::Done,
        create_next(CreateStage::CreateFilesystem, false) == CreateStage::UnregisterRam,
        create_next(CreateStage::UnregisterRam, ok) == CreateStage::Done,
        create_next(CreateStage::Done, ok) == CreateStage::Done,
        cloud_create_next(CloudCreateStage::MapRam, true) == CloudCreateStage::CreateFilesystem,
        cloud_create_next(CloudCreateStage::CreateFilesystem, true) == CloudCreateStage::StartWorker,
        cloud_create_next(CloudCreateStage::StartWorker, true) == CloudCreateStage::CreateVm,
        cloud_create_next(CloudCreateStage::CreateVm, true) == CloudCreateStage::Boot,
        cloud_create_next(CloudCreateStage::Boot, true) == CloudCreateStage::Done,
        forall|stage: CloudCreateStage| #[trigger] cloud_create_next(stage, false) == CloudCreateStage::Done,
        start_next(StartStage::CreateApiEvent) == StartStage::CreateExitEvent,
        start_next(StartStage::CreateExitEvent) == StartStage::CreateHypervisor,
        start_next(StartStage::CreateHypervisor) == StartStage::CloneApiEvent,
        start_next(StartStage::CloneApiEvent) == StartStage::CloneExitEvent,
        start_next(StartStage::CloneExitEvent) == StartStage::StartWorker,
        start_next(StartStage::StartWorker) == StartStage::Running,
{
}

/// A checkpoint leaves no guest and no operation out. All guests are paused, in order, before the first
/// is saved; each is saved after the one before it, and of each the devices are captured where it has a
/// device model, then its RAM is sealed, its filesystem saved and its RAM saved; all are resumed, the last
/// one first, before the checkpoint is published, which takes that nothing failed.
pub proof fn checkpoint_leaves_nothing_out(kinds: Seq<BackendKind>, stage: CheckpointStage, failed: bool, ok: bool, i: usize)
    requires
        0 < kinds.len() <= usize::MAX,
        stage_fits(kinds.len(), stage),
    ensures
        ({
            let n = kinds.len();
            let last = (n - 1) as usize;
            let next = checkpoint_next(kinds, stage, failed, ok);
            let begins = |k: int| stage == CheckpointStage::Pause(last) && k == 0 || k > 0 && stage == CheckpointStage::SaveRam((k - 1) as usize);
            &&& checkpoint_first(kinds) == CheckpointStage::Pause(0)
            &&& next == CheckpointStage::Pause(i) ==> ok && i > 0 && stage == CheckpointStage::Pause((i - 1) as usize)
            &&& next == CheckpointStage::Capture(i) ==> ok && kinds[i as int] is Cloud && begins(i as int)
            &&& next == CheckpointStage::SealRam(i) ==> ok && if kinds[i as int] is Cloud {
                stage == CheckpointStage::Capture(i)
            } else {
                begins(i as int) || stage == CheckpointStage::Capture(i)
            }
            &&& next == CheckpointStage::SaveFilesystem(i) ==> ok && stage == CheckpointStage::SealRam(i)
            &&& next == CheckpointStage::SaveRam(i) ==> ok && stage == CheckpointStage::SaveFilesystem(i)
            &&& next is Resume && ok && !(stage is Resume) ==> stage == CheckpointStage::SaveRam(last)
            &&& next is Publish ==> stage == CheckpointStage::Resume(0) && ok && !failed
            &&& next == CheckpointStage::Resume(i) ==> i == last || stage == CheckpointStage::Resume((i + 1) as usize)
            &&& next == CheckpointStage::Unwind(i) ==> stage == CheckpointStage::Unwind((i + 1) as usize) || !ok && stage == CheckpointStage::Pause((i + 1) as usize)
            &&& next is Done ==> stage is Publish || stage is Done || stage == CheckpointStage::Unwind(0) || stage == CheckpointStage::Pause(0) && !ok || stage
                == CheckpointStage::Resume(0) && (failed || !ok)
        }),
{
}

/// A fork with the hypervisor's dirty log, from reading the log to mapping the child: the child is mapped
/// with the RAM that the source had when the log was read, byte for byte, and so is the source. Each page
/// that differed from where it was kept must have been written to by the host or be in the log. From then
/// on source and child have the same pages, which neither writes to any more.
pub proof fn whole_fork_shows_the_child_the_source(
    paused: ForkView,
    log: Seq<u64>,
    plan: RamForkPlan,
    was: RamIds,
    now: RamIds,
    planned: ForkView,
    copied: ForkView,
    mapped: ForkView,
    ready: ForkView,
    world: RamWorld,
    reserved: Seq<Seq<u8>>,
)
    requires
        paused.inv(),
        paused.stage is ReadDirtyLog,
        paused.source.ram.private,
        paused.source.ram.drawn_from(was),
        forks_at_once(paused.source.ram, plan, paused.source.ram.dirty_with(log), was, now),
        planned == (ForkView {
            stage: ForkStage::CopyPages,
            prepared: Some(plan.preparation()),
            actions: plan.spec_actions(),
            ..paused
        }),
        fork_advanced(planned, Ok(()), copied),
        fork_advanced(copied, Ok(()), mapped),
        fork_advanced(mapped, Ok(()), ready),
        world.live.len() == paused.source.ram.pages.len(),
        world.maps(paused.source.ram.pages),
        reserved.len() == paused.source.ram.pages.len(),
        forall|i: int|
            0 <= i < world.live.len() && world.files[place(#[trigger] paused.source.ram.pages[i])] != world.live[i] ==> paused.source.ram.dirty.contains(
                i as usize,
            ) || (i / 64 < log.len() && (log[i / 64] >> ((i % 64) as u64)) % 2 == 1),
    ensures
        ({
            let kept = world.after_all(planned.actions);
            let source = kept.after_all(copied.actions);
            let child = RamWorld::reserved(source.files, reserved).after_all(mapped.actions);
            &&& copied.stage == ForkStage::MapSource && mapped.stage == ForkStage::MapChild && ready.stage == ForkStage::RegisterChild
            &&& source.live == world.live
            &&& child.live == world.live
            &&& mapped.child is Some
            &&& mapped.child->0.pages == mapped.source.ram.pages
            &&& mapped.child->0.sealed && mapped.child->0.private && mapped.child->0.dirty == Set::<usize>::empty()
            &&& mapped.source.ram.sealed && mapped.source.ram.private && mapped.source.ram.dirty == Set::<usize>::empty()
            &&& source.maps(mapped.source.ram.pages)
            &&& ready.child == mapped.child && ready.source == mapped.source
            &&& ready.source.filesystem == paused.source.filesystem && ready.filesystem == paused.filesystem && ready.id == paused.id
            &&& ready.failure is None
        }),
{
    let v = paused.source.ram;
    fork_carries_every_store(v, log, plan, was, now, world, copied.actions, reserved, mapped.actions);
    let dirty = v.dirty_with(log);
    assert forall|p: usize| #[trigger] dirty.contains(p) implies p < v.pages.len() by {
        crate::vmm::ram_laws::dirty_log_marks_its_pages(v, log, p);
    }
    assert forall|i: int| 0 <= i < v.pages.len() && !dirty.contains(i as usize) implies world.files[place(#[trigger] v.pages[i])] == world.live[i] by {
        crate::vmm::ram_laws::dirty_log_marks_its_pages(v, log, i as usize);
        if i / 64 < log.len() {
            let bit = (i % 64) as u64;
            assert(i as usize == 64 * (i / 64) + bit);
            assert((log[i / 64] >> bit) % 2 == 1 ==> dirty.contains(i as usize));
        }
    }
    forked_ram_is_the_source_ram(v, plan, dirty, was, now, world, copied.actions, reserved, mapped.actions);
}

/// A fork that begins to copy RAM while the guest still runs, from taking the dirty pages to mapping the
/// child: the child is mapped with the RAM that the source had at the pause, and so is the source. Each
/// page that differed from where it was kept must be among those taken or written to by the host, and each
/// that changed since then among those found dirty at the pause or written to by the host.
pub proof fn whole_cloud_fork_shows_the_child_the_source(
    first: CloudForkView,
    taken: Seq<usize>,
    ids: RamIds,
    was: RamIds,
    now: RamIds,
    preparing: CloudForkView,
    pausing: CloudForkView,
    capturing: CloudForkView,
    forking: CloudForkView,
    dirty: Seq<usize>,
    plan: RamForkPlan,
    planned: CloudForkView,
    copied: CloudForkView,
    mapped: CloudForkView,
    resumed: CloudForkView,
    before: RamWorld,
    paused: Seq<Seq<u8>>,
    reserved: Seq<Seq<u8>>,
)
    requires
        first.inv(),
        first.stage is TakeDirtyPages,
        first.source.ram.private,
        first.source.ram.drawn_from(ids),
        preparing.prepared is Some,
        prepares(first.source.ram, taken, preparing.prepared->0, preparing.actions, ids, was),
        preparing == (CloudForkView { stage: CloudForkStage::PrepareRam, prepared: preparing.prepared, actions: preparing.actions, ..first }),
        cloud_fork_advanced(preparing, Ok(()), pausing),
        cloud_fork_advanced(pausing, Ok(()), capturing),
        forking.source == capturing.source && forking.prepared == capturing.prepared && forking.failure == capturing.failure,
        finishes(forking.source.ram, forking.prepared->0, dirty, plan, was, now),
        forall|k: int| 0 <= k < dirty.len() ==> #[trigger] dirty[k] < first.source.ram.pages.len(),
        planned.stage is CopyPages && planned.prepared == Some(plan.preparation()) && planned.actions == plan.spec_actions(),
        planned.source == forking.source && planned.failure is None,
        cloud_fork_advanced(planned, Ok(()), copied),
        cloud_fork_advanced(copied, Ok(()), mapped),
        cloud_fork_advanced(mapped, Ok(()), resumed),
        before.live.len() == first.source.ram.pages.len(),
        before.maps(first.source.ram.pages),
        paused.len() == first.source.ram.pages.len(),
        reserved.len() == first.source.ram.pages.len(),
        forall|i: int|
            0 <= i < before.live.len() && before.files[place(#[trigger] first.source.ram.pages[i])] != before.live[i]
                ==> first.source.ram.dirty.contains(i as usize) || taken.contains(i as usize),
        forall|i: int|
            0 <= i < paused.len() && #[trigger] paused[i] != before.live[i] ==> first.source.ram.dirty.contains(i as usize) || dirty.contains(i as usize),
    ensures
        ({
            let world = RamWorld { files: before.after_all(preparing.actions).files, live: paused, mapped: before.mapped };
            let kept = world.after_all(planned.actions);
            let source = kept.after_all(copied.actions);
            let child = RamWorld::reserved(source.files, reserved).after_all(resumed.actions);
            &&& pausing.stage == CloudForkStage::Pause && capturing.stage == CloudForkStage::CaptureState
            &&& copied.stage == CloudForkStage::MapSource && mapped.stage == CloudForkStage::Resume && resumed.stage == CloudForkStage::MapChild
            &&& source.live == paused
            &&& child.live == paused
            &&& resumed.branch == Some(resumed.source.ram.pages)
            &&& resumed.source.ram.sealed && resumed.source.ram.private && resumed.source.ram.dirty == Set::<usize>::empty()
            &&& source.maps(resumed.source.ram.pages)
        }),
{
    let v = first.source.ram;
    assert forall|i: int| 0 <= i < v.pages.len() && !(v.dirty + named_pages(taken)).contains(i as usize) implies before.files[place(
        #[trigger] v.pages[i],
    )] == before.live[i] by {
        listed_pages_are_named(taken, i as usize);
    }
    assert forall|i: int| 0 <= i < paused.len() && !(v.dirty + named_pages(dirty)).contains(i as usize) implies #[trigger] paused[i] == before.live[i] by {
        listed_pages_are_named(dirty, i as usize);
    }
    prepared_fork_is_the_source_ram(
        v,
        taken,
        preparing.prepared->0,
        preparing.actions,
        before,
        ids,
        paused,
        dirty,
        plan,
        was,
        now,
        copied.actions,
        reserved,
        resumed.actions,
    );
}

/// Handing a guest's devices to another filesystem changes just the devices that are served in this
/// process: they are then served by that filesystem, with its window, and keep all else.
pub proof fn only_served_devices_are_handed_over(devices: Seq<FsConfig>, backend: u64, window: u64, i: int)
    requires
        0 <= i < devices.len(),
    ensures
        ({
            let after = retargeted(devices, backend, window);
            &&& after.len() == devices.len()
            &&& devices[i].in_process_backend_id is None ==> after[i] == devices[i]
            &&& devices[i].in_process_backend_id is Some ==> {
                &&& after[i].in_process_backend_id == Some(backend)
                &&& after[i].dax_window_size == window
                &&& after[i].tag == devices[i].tag
                &&& after[i].num_queues == devices[i].num_queues
                &&& after[i].queue_size == devices[i].queue_size
            }
        }),
{
}

/// The places that are kept of a guest's devices are those of the ones served in this process, in order.
pub proof fn served_places_are_the_served_devices(devices: Seq<FsConfig>, n: int, place: usize)
    requires
        0 <= n <= devices.len() <= usize::MAX,
    ensures
        served_in_process(devices, n).contains(place) <==> place < n && devices[place as int].in_process_backend_id is Some,
        forall|j: int, k: int| 0 <= j < k < served_in_process(devices, n).len() ==> served_in_process(devices, n)[j] < served_in_process(devices, n)[k],
        served_in_process(devices, n).len() <= n,
    decreases n,
{
    if n > 0 {
        served_places_are_the_served_devices(devices, n - 1, place);
        let before = served_in_process(devices, n - 1);
        let after = served_in_process(devices, n);
        assert forall|k: int| 0 <= k < before.len() implies #[trigger] before[k] < n - 1 by {
            served_places_are_the_served_devices(devices, n - 1, before[k]);
            assert(before.contains(before[k]));
        }
        if before.contains(place) {
            let k = choose|k: int| 0 <= k < before.len() && before[k] == place;
            assert(after[k] == place);
        }
        if place == n - 1 && devices[n - 1].in_process_backend_id is Some {
            assert(after[before.len() as int] == place);
        }
        if after.contains(place) && !before.contains(place) {
            let k = choose|k: int| 0 <= k < after.len() && after[k] == place;
            if k < before.len() {
                assert(before[k] == place);
            }
        }
    }
}

/// A page of RAM counts once however many guests have it, and as shared if and only if two different
/// guests have it; a generation file counts as long as a guest has a page in it.
pub proof fn ram_is_counted_by_its_guests(v: KvmView, number: u64)
    ensures
        v.ram_pages().contains(number) <==> exists|n: u64, i: int| #[trigger] guest_has(v, n, i) && v.vms[n].ram.pages[i].id == number,
        v.ram_generations().contains(number) <==> exists|n: u64, i: int| #[trigger] guest_has(v, n, i) && v.vms[n].ram.pages[i].generation == number,
        v.shared_ram_pages().contains(number) <==> exists|n: u64, m: u64, i: int, j: int|
            {
                &&& n != m
                &&& #[trigger] guest_has(v, n, i)
                &&& #[trigger] guest_has(v, m, j)
                &&& v.vms[n].ram.pages[i].id == number
                &&& v.vms[m].ram.pages[j].id == number
            },
{
    if v.ram_pages().contains(number) {
        let n = choose|n: u64| #[trigger] v.vms.contains_key(n) && page_ids(v.vms[n].ram.pages).contains(number);
        let pages = v.vms[n].ram.pages;
        let i = choose|i: int| 0 <= i < pages.len() && (#[trigger] pages[i]).id == number;
        assert(guest_has(v, n, i));
    }
    if exists|n: u64, i: int| #[trigger] guest_has(v, n, i) && v.vms[n].ram.pages[i].id == number {
        let (n, i) = choose|n: u64, i: int| #[trigger] guest_has(v, n, i) && v.vms[n].ram.pages[i].id == number;
        assert(page_ids(v.vms[n].ram.pages).contains(number));
    }
    if v.ram_generations().contains(number) {
        let n = choose|n: u64| #[trigger] v.vms.contains_key(n) && generation_ids(v.vms[n].ram.pages).contains(number);
        let pages = v.vms[n].ram.pages;
        let i = choose|i: int| 0 <= i < pages.len() && (#[trigger] pages[i]).generation == number;
        assert(guest_has(v, n, i));
    }
    if exists|n: u64, i: int| #[trigger] guest_has(v, n, i) && v.vms[n].ram.pages[i].generation == number {
        let (n, i) = choose|n: u64, i: int| #[trigger] guest_has(v, n, i) && v.vms[n].ram.pages[i].generation == number;
        assert(generation_ids(v.vms[n].ram.pages).contains(number));
    }
    if v.shared_ram_pages().contains(number) {
        let (n, m) = choose|n: u64, m: u64|
            {
                &&& n != m
                &&& #[trigger] v.vms.contains_key(n)
                &&& #[trigger] v.vms.contains_key(m)
                &&& page_ids(v.vms[n].ram.pages).contains(number)
                &&& page_ids(v.vms[m].ram.pages).contains(number)
            };
        let one = v.vms[n].ram.pages;
        let two = v.vms[m].ram.pages;
        let i = choose|i: int| 0 <= i < one.len() && (#[trigger] one[i]).id == number;
        let j = choose|j: int| 0 <= j < two.len() && (#[trigger] two[j]).id == number;
        assert(guest_has(v, n, i) && guest_has(v, m, j));
    }
    if exists|n: u64, m: u64, i: int, j: int|
        {
            &&& n != m
            &&& #[trigger] guest_has(v, n, i)
            &&& #[trigger] guest_has(v, m, j)
            &&& v.vms[n].ram.pages[i].id == number
            &&& v.vms[m].ram.pages[j].id == number
        } {
        let (n, m, i, j) = choose|n: u64, m: u64, i: int, j: int|
            {
                &&& n != m
                &&& #[trigger] guest_has(v, n, i)
                &&& #[trigger] guest_has(v, m, j)
                &&& v.vms[n].ram.pages[i].id == number
                &&& v.vms[m].ram.pages[j].id == number
            };
        assert(page_ids(v.vms[n].ram.pages).contains(number));
        assert(page_ids(v.vms[m].ram.pages).contains(number));
        assert(v.vms.contains_key(n) && v.vms.contains_key(m));
    }
}

/// Whether a guest is there and its RAM has so many pages.
pub open spec fn guest_has(v: KvmView, n: u64, i: int) -> bool {
    v.vms.contains_key(n) && 0 <= i < v.vms[n].ram.pages.len()
}

/// The device that shows a branch to its guest carries the name under which guests mount it, has one
/// queue of 1024 entries, and is served in this process.
pub proof fn branch_devices_are_served_here(device: FsConfig, backend: u64, window: u64)
    requires
        is_branch_device(device, backend, window),
    ensures
        device.tag@ == "minidox"@,
        device.num_queues == 1,
        device.queue_size == 1024,
        device.in_process_backend_id == Some(backend),
        device.dax_window_size == window,
{
}

/// Causes are told in order, with a colon and a space between any two.
pub proof fn causes_are_told_in_order(causes: Seq<Seq<char>>, cause: Seq<char>)
    ensures
        chained(seq![cause]) == cause,
        causes.len() > 0 ==> chained(causes.push(cause)) == chained(causes) + seq![':', ' '] + cause,
{
    reveal_strlit(": ");
    assert(seq![':', ' '] =~= ": "@);
    assert(causes.push(cause).drop_last() =~= causes);
}

/// A child is given the devices of its source, those that are served in this process by its own
/// filesystem, and all others as they are.
pub proof fn devices_are_handed_over(before: Option<Vec<FsConfig>>, filesystem: InProcessFilesystem, after: Option<Vec<FsConfig>>, i: int)
    requires
        hands_over(before, filesystem, after),
    ensures
        before is None <==> after is None,
        before matches Some(was) ==> (after matches Some(now) && {
            &&& now@.len() == was@.len()
            &&& 0 <= i < was@.len() && was@[i].in_process_backend_id is None ==> now@[i] == was@[i]
            &&& 0 <= i < was@.len() && was@[i].in_process_backend_id is Some ==> {
                &&& now@[i].in_process_backend_id == Some(filesystem.backend_id)
                &&& now@[i].dax_window_size == filesystem.dax_window_size
                &&& now@[i].tag == was@[i].tag
                &&& now@[i].num_queues == was@[i].num_queues
                &&& now@[i].queue_size == was@[i].queue_size
            }
        }),
{
}

/// A forked guest begins with its source's pages, clean and mapped privately from files that are not
/// written to any more, with its own filesystem, under the next number; the pause is kept. The source is
/// put back, and all other guests stay.
pub proof fn forked_guest_begins_so(
    v: KvmView,
    id: u64,
    source: GuestView,
    kind: BackendKind,
    filesystem: InProcessFilesystem,
    pause: u64,
    other: u64,
)
    requires
        v.ids_fresh(),
        v.next_vm < u64::MAX,
        id < v.next_vm,
    ensures
        ({
            let w = v.forked(id, source, kind, filesystem, pause);
            let child = w.vms[v.next_vm];
            &&& w.vms.contains_key(v.next_vm)
            &&& child.ram.pages == source.ram.pages
            &&& forall|p: usize| !child.ram.dirty.contains(p)
            &&& child.ram.private && child.ram.sealed
            &&& child.kind == kind && child.filesystem == filesystem
            &&& w.vms.contains_key(id) && w.vms[id] == source
            &&& w.next_vm == v.next_vm + 1
            &&& w.last_fork_pause == Some(pause)
            &&& other != id && other != v.next_vm ==> (w.vms.contains_key(other) <==> v.vms.contains_key(other))
            &&& other != id && v.vms.contains_key(other) ==> w.vms[other] == v.vms[other]
            &&& w.next_lineage == v.next_lineage && w.durable == v.durable
        }),
{
}

/// A request to the VMM succeeds if and only if it was sent and done; a failure is told under the name of
/// the operation, and one to signal it under that of the signal.
pub proof fn requests_are_answered_so(operation: &'static str, sent: Result<(), SendFailure>, r: Result<(), Error>)
    requires
        answers(operation, sent, r),
    ensures
        r is Ok <==> sent is Ok,
        sent matches Err(SendFailure::Request(causes)) ==> (r matches Err(Error::Backend { operation: told, message }) && told == operation && message@
            == chained(causes@.map_values(|cause: String| cause@))),
        sent matches Err(SendFailure::Event(causes)) ==> (r matches Err(Error::Backend { operation: told, message }) && told == "clone VMM API eventfd"
            && message@ == chained(causes@.map_values(|cause: String| cause@))),
{
}

/// An access to a guest's files begins if and only if the guest is there, and then with the guest's pause.
pub proof fn accesses_begin_with_the_pause(v: KvmView, vm: KvmVmId, r: Result<Barrier<SupervisorError>, SupervisorError>)
    requires
        access_begun(v, vm, r),
    ensures
        r is Ok <==> v.vms.contains_key(vm.number()),
        r matches Ok(access) ==> access.spec_stage() is Pause && access.failure() is None,
        r matches Err(e) ==> e == SupervisorError::VmNotFound(vm),
{
}

/// A fork begins as its source's kind asks for, of the source as it is, with nothing done and nothing gone
/// wrong.
pub proof fn forks_begin_with_nothing_done(fork: GuestFork, id: KvmVmId, source: GuestView)
    requires
        fork.begun(id, source),
    ensures
        fork is Raw <==> source.kind is Raw,
        fork is Cloud <==> source.kind is Cloud,
        fork matches GuestFork::Raw(raw) ==> {
            &&& raw@.source == source && raw@.id == id.number()
            &&& raw@.stage is CreateChild && raw@.failure is None
            &&& raw@.filesystem is None && raw@.child is None
        },
        fork matches GuestFork::Cloud(cloud) ==> {
            &&& cloud@.source == source && cloud@.id == id.number()
            &&& cloud@.stage is TakeDirtyPages && cloud@.failure is None
            &&& cloud@.capture is None && cloud@.filesystem is None && cloud@.branch is None
        },
{
}

/// RAM is registered if and only if its region was made and its dirty log started. A region that was made
/// and whose dirty log could not be started is removed again before the failure is told; nothing is told
/// before that.
pub proof fn registration_leaves_no_region_behind(
    before: RamRegistration,
    outcome: Result<(), Vec<String>>,
    after: RamRegistration,
    r: Option<Result<(), Error>>,
)
    requires
        registration_advanced(before, outcome, after, r),
        !(before.spec_stage() is Done),
    ensures
        after.spec_stage() is StartDirtyLog <==> before.spec_stage() is CreateRegion && outcome is Ok,
        after.spec_stage() is RollBack <==> before.spec_stage() is StartDirtyLog && outcome is Err,
        after.spec_stage() is Done <==> r is Some,
        r is Some && r->0 is Ok <==> before.spec_stage() is StartDirtyLog && outcome is Ok,
        after.spec_stage() is RollBack ==> after.failure() == Some(outcome->Err_0@),
{
}

/// With no guest there is nothing to pause or to save: the checkpoint is published at once.
pub proof fn empty_checkpoint_is_published(kinds: Seq<BackendKind>)
    ensures
        checkpoint_first(kinds) is Publish <==> kinds.len() == 0,
        checkpoint_first(kinds) is Publish || checkpoint_first(kinds) == CheckpointStage::Pause(0),
{
}

/// The steps of a fork that bring something with them keep to the order of the others: each leads where a
/// success or a failure of its stage leads, keeps what it brings, and tells the failure. Nothing else
/// changes; the source stays as it is until its pages are copied.
pub proof fn noted_fork_steps_keep_to_the_order(
    before: ForkView,
    after: ForkView,
    filesystem: Result<InProcessFilesystem, SupervisorError>,
    log: Result<Vec<u64>, SupervisorError>,
    had: RamIds,
    left: RamIds,
)
    ensures
        before.stage is ForkFilesystem && before.failure is None && filesystem_taken(before, filesystem, after) ==> {
            &&& after.stage == fork_next(before.stage, false, filesystem is Ok)
            &&& filesystem matches Ok(given) ==> after.filesystem == Some(given) && after.failure is None
            &&& filesystem matches Err(e) ==> after.failure == Some(e) && after.filesystem == before.filesystem
            &&& after.source == before.source && after.child == before.child && after.id == before.id && after.prepared == before.prepared
        },
        before.stage is ReadDirtyLog && before.failure is None && dirty_log_taken(before, log, after, had, left) ==> {
            &&& after.stage == fork_next(before.stage, false, log is Ok)
            &&& log is Ok ==> after.prepared is Some && after.failure is None
            &&& log matches Err(e) ==> after.failure == Some(e) && left == had && after.prepared == before.prepared
            &&& after.source == before.source && after.child == before.child && after.id == before.id && after.filesystem == before.filesystem
        },
{
}

/// The same of a fork of a guest with a device model. A dirty page that is none ends the fork before the
/// pause, and after it once the source runs again; the pages and devices captured are those that count.
pub proof fn noted_cloud_fork_steps_keep_to_the_order(
    before: CloudForkView,
    after: CloudForkView,
    pages: Result<Vec<usize>, SupervisorError>,
    capture: Result<ForkCapture, SupervisorError>,
    filesystem: Result<InProcessFilesystem, SupervisorError>,
    had: RamIds,
    left: RamIds,
)
    ensures
        before.stage is TakeDirtyPages && before.failure is None && preparation_begun(before, pages, after, had, left) ==> {
            &&& after.stage == cloud_fork_next(before.stage, false, after.failure is None)
            &&& after.failure is None ==> pages is Ok && after.prepared is Some
            &&& pages matches Err(e) ==> after.failure == Some(e)
            &&& after.failure is Some ==> left == had
            &&& after.source == before.source && after.branch == before.branch && after.id == before.id && after.filesystem == before.filesystem
        },
        before.stage is CaptureState && before.failure is None && capture_taken(before, capture, after) ==> {
            &&& after.stage == cloud_fork_next(before.stage, false, capture is Ok)
            &&& capture matches Ok(given) ==> after.capture == Some(given) && after.failure is None
            &&& capture matches Err(e) ==> after.failure == Some(e)
            &&& after.source == before.source && after.branch == before.branch && after.id == before.id && after.prepared == before.prepared
        },
        before.stage is ForkFilesystem && before.failure is None && cloud_filesystem_taken(before, filesystem, after, had, left) ==> {
            &&& after.stage == cloud_fork_next(before.stage, false, after.failure is None)
            &&& after.failure is None ==> filesystem is Ok && after.prepared is Some
            &&& filesystem matches Ok(given) ==> after.filesystem == Some(given) && after.capture is Some && after.capture->0.dirty_ram_pages
                == before.capture->0.dirty_ram_pages
            &&& filesystem matches Err(e) ==> after.failure == Some(e)
            &&& after.failure is Some ==> left == had
            &&& after.source == before.source && after.branch == before.branch && after.id == before.id
        },
{
}

/// The steps by which a guest is made lead where a success or a failure of their stage leads, keep what
/// they bring, and tell the failure; RAM of a size that is none fails like any other step.
pub proof fn noted_creation_steps_keep_to_the_order(
    before: CreationView,
    after: CreationView,
    size: usize,
    outcome: Result<(), SupervisorError>,
    filesystem: Result<InProcessFilesystem, SupervisorError>,
    had: RamIds,
    left: RamIds,
)
    requires
        before.failure is None,
    ensures
        before.stage is CreateVm && ram_made(before, size, outcome, after, had, left) ==> {
            &&& after.stage == create_next(before.stage, after.failure is None)
            &&& after.failure is None <==> outcome is Ok && size > 0 && size % 4096 == 0
            &&& after.failure is None ==> after.ram == Some(new_ram(size, had)) && after.actions == new_ram_actions(size, had)
            &&& outcome matches Err(e) ==> after.failure == Some(e)
            &&& after.failure is Some ==> left == had && after.ram == before.ram
            &&& after.filesystem == before.filesystem
        },
        before.stage is CreateFilesystem && filesystem_made(before, filesystem, after) ==> {
            &&& after.stage == create_next(before.stage, filesystem is Ok)
            &&& filesystem matches Ok(given) ==> after.filesystem == Some(given) && after.failure is None
            &&& filesystem matches Err(e) ==> after.failure == Some(e) && after.filesystem == before.filesystem
            &&& after.ram == before.ram
        },
        before.stage is MapRam || before.stage is RegisterRam ==> (create_advanced(before, outcome, after) ==> {
            &&& after.stage == create_next(before.stage, outcome is Ok)
            &&& after.failure == (match outcome {
                Ok(()) => None,
                Err(e) => Some(e),
            })
            &&& after.ram == before.ram && after.filesystem == before.filesystem
        }),
{
}

/// The same of a guest with a device model; its filesystem is shown to it by a device of its own, behind
/// the devices that were asked for.
pub proof fn noted_cloud_creation_steps_keep_to_the_order(
    before: CloudCreationView,
    after: CloudCreationView,
    outcome: Result<(), SupervisorError>,
    filesystem: Result<InProcessFilesystem, SupervisorError>,
    i: int,
)
    requires
        before.failure is None,
    ensures
        before.stage is CreateFilesystem && cloud_filesystem_made(before, filesystem, after) ==> {
            &&& after.stage == cloud_create_next(before.stage, filesystem is Ok)
            &&& filesystem matches Ok(given) ==> {
                &&& after.filesystem == Some(given) && after.failure is None
                &&& after.devices matches Some(devices) && {
                    &&& devices@.len() == listed_devices(before.devices).len() + 1
                    &&& devices@[devices@.len() - 1].in_process_backend_id == Some(given.backend_id)
                    &&& devices@[devices@.len() - 1].dax_window_size == given.dax_window_size
                    &&& 0 <= i < listed_devices(before.devices).len() ==> devices@[i] == listed_devices(before.devices)[i]
                }
            }
            &&& filesystem matches Err(e) ==> after.failure == Some(e)
            &&& after.ram == before.ram
        },
        !(before.stage is CreateFilesystem || before.stage is Done) && cloud_create_advanced(before, outcome, after) ==> {
            &&& after.stage == cloud_create_next(before.stage, outcome is Ok)
            &&& after.failure == (match outcome {
                Ok(()) => None,
                Err(e) => Some(e),
            })
            &&& after.ram == before.ram && after.filesystem == before.filesystem && after.devices == before.devices
        },
{
    if let Some(devices) = after.devices {
        if 0 <= i < listed_devices(before.devices).len() && devices@.len() == listed_devices(before.devices).len() + 1 {
            assert(devices@.drop_last()[i] == devices@[i]);
        }
    }
}

/// What the host writes to the RAM of a guest is noted as dirty there, page for page of the bytes written,
/// and changes nothing else about the guest and nothing about another.
pub proof fn host_writes_are_noted_with_the_guest(v: KvmView, id: u64, address: int, len: int, at: int, other: u64)
    requires
        v.vms.contains_key(id),
        0 <= address,
        0 <= len,
        address + len <= usize::MAX,
    ensures
        ({
            let w = v.ram_written(id, address, len);
            &&& w.vms.contains_key(id)
            &&& address <= at < address + len ==> w.vms[id].ram.dirty.contains((at / 4096) as usize)
            &&& v.vms[id].ram.dirty.contains(at as usize) ==> w.vms[id].ram.dirty.contains(at as usize)
            &&& w.vms[id].ram.pages == v.vms[id].ram.pages
            &&& w.vms[id].kind == v.vms[id].kind && w.vms[id].filesystem == v.vms[id].filesystem
            &&& other != id ==> (w.vms.contains_key(other) <==> v.vms.contains_key(other))
            &&& other != id && v.vms.contains_key(other) ==> w.vms[other] == v.vms[other]
            &&& w.next_vm == v.next_vm && w.next_lineage == v.next_lineage
        }),
{
}

} // verus!
