use minidox::io::IoError;
use minidox::vmm::barrier::BarrierStage;
use minidox::vmm::checkpoint::{CapturedGuest, CheckpointStage};
use minidox::cache::shared::CachePageAccounting;
use minidox::vmm::creation::{CloudCreateStage, CreateStage};
use minidox::vmm::devices::{
    attach_filesystems, branch_device, in_process_filesystems, retarget_filesystems, FsConfig,
    InProcessFilesystem,
};
use minidox::vmm::forking::{CloudForkStage, ForkCapture, ForkStage, GuestFork};
use minidox::vmm::opening::{DurableBackend, ForestManifest, OpenStage, Opened, VmManifest};
use minidox::vmm::ram::{KvmGuestRam, RamAction, RamIds};
use minidox::vmm::supervisor::{
    BackendKind, KvmSupervisor, KvmVmId, SupervisorError, MANIFEST_VERSION, RAM_GPA,
    RAM_SLOT,
};
use minidox::vmm::worker::{CloudHypervisorVm, RegisterStage, SendFailure, StartStage, WorkerExit};
use minidox::vmm::Error;

fn failure(operation: &'static str) -> SupervisorError {
    SupervisorError::Backend {
        operation,
        message: "failed".to_string(),
    }
}

fn is_failure<T>(result: &Result<T, SupervisorError>, expected: &str) -> bool {
    matches!(result, Err(SupervisorError::Backend { operation, .. }) if *operation == expected)
}

fn outcome<T>(failed: Option<&'static str>, value: T) -> Result<T, SupervisorError> {
    match failed {
        Some(operation) => Err(failure(operation)),
        None => Ok(value),
    }
}

/// Makes a guest, where the operation of one stage fails.
fn create(
    supervisor: &mut KvmSupervisor,
    fails: Option<CreateStage>,
) -> (Vec<CreateStage>, Result<KvmVmId, SupervisorError>) {
    let mut creation = supervisor.create_vm(2 * 4096);
    let mut seen = Vec::new();
    while creation.stage() != CreateStage::Done {
        let stage = creation.stage();
        seen.push(stage);
        let failed = if fails == Some(stage) {
            Some("create")
        } else {
            None
        };
        match stage {
            CreateStage::CreateVm => {
                let mut ids = RamIds {
                    next_page: 1000 * supervisor.next_numbers().0,
                    next_generation: supervisor.next_numbers().0,
                };
                creation.vm_created(outcome(failed, ()), &mut ids);
            }
            CreateStage::CreateFilesystem => {
                supervisor.create_filesystem();
                creation.filesystem_created(outcome(failed, restored(5)));
            }
            _ => creation.advance(outcome(failed, ())),
        }
    }
    let result = supervisor.finish_creation(creation);
    (seen, result)
}

#[test]
fn guest_numbers_start_at_one_and_are_not_used_again() {
    let mut supervisor = KvmSupervisor::new(false);
    assert_eq!(supervisor.next_numbers(), (1, 1));
    let first = create(&mut supervisor, None).1.unwrap();
    let second = create(&mut supervisor, None).1.unwrap();
    assert_eq!(first.into_raw(), 1);
    assert_eq!(second.into_raw(), 2);
    supervisor.remove_vm(second).unwrap();
    assert!(matches!(
        supervisor.remove_vm(second),
        Err(SupervisorError::VmNotFound(vm)) if vm == second
    ));
    let third = create(&mut supervisor, None).1.unwrap();
    assert_eq!(third.into_raw(), 3);
    assert_eq!(
        supervisor.vm_ids(),
        vec![KvmVmId::from_raw(1), KvmVmId::from_raw(3)]
    );
    assert_eq!(supervisor.next_numbers(), (4, 1));
    assert_eq!((RAM_SLOT, RAM_GPA, MANIFEST_VERSION), (0, 0, 1));
}

#[test]
fn guest_without_filesystem_is_taken_back() {
    let mut supervisor = KvmSupervisor::new(true);
    let (seen, result) = create(&mut supervisor, Some(CreateStage::CreateFilesystem));
    assert!(is_failure(&result, "create"));
    assert_eq!(seen.last(), Some(&CreateStage::UnregisterRam));
    assert!(supervisor.vm_ids().is_empty());
    assert_eq!(supervisor.next_numbers(), (1, 2));

    let (seen, result) = create(&mut supervisor, Some(CreateStage::RegisterRam));
    assert!(result.is_err());
    assert_eq!(seen.last(), Some(&CreateStage::RegisterRam));
    assert_eq!(create(&mut supervisor, None).1.unwrap().into_raw(), 1);
    assert_eq!(supervisor.next_numbers(), (2, 3));
}

/// Forks a guest without a device model, where the operations of some stages fail.
fn fork(
    supervisor: &mut KvmSupervisor,
    source: KvmVmId,
    fails: &[(ForkStage, &'static str)],
) -> (Vec<ForkStage>, Result<KvmVmId, SupervisorError>) {
    let mut seen = Vec::new();
    let mut fork = match supervisor.fork_vm(source) {
        Ok(GuestFork::Raw(fork)) => fork,
        Ok(GuestFork::Cloud(_)) => panic!("the guest has no device model"),
        Err(error) => return (seen, Err(error)),
    };
    let mut ids = RamIds {
        next_page: 50_000,
        next_generation: 60,
    };
    while fork.stage() != ForkStage::Done {
        let stage = fork.stage();
        seen.push(stage);
        let failed = fails
            .iter()
            .find(|(fails, _)| *fails == stage)
            .map(|(_, operation)| *operation);
        match stage {
            ForkStage::ForkFilesystem => fork.filesystem_forked(outcome(failed, restored(6))),
            ForkStage::ReadDirtyLog => fork.dirty_log_read(outcome(failed, vec![2]), &mut ids),
            _ => fork.advance(outcome(failed, ())),
        }
    }
    let result = supervisor.finish_fork(fork, 250);
    (seen, result)
}

const NO_FILES: CachePageAccounting = CachePageAccounting {
    resident_pages: 0,
    shared_pages: 0,
};

#[test]
fn fork_is_one_pause_of_the_source() {
    let mut supervisor = KvmSupervisor::new(false);
    let source = create(&mut supervisor, None).1.unwrap();
    let (seen, child) = fork(&mut supervisor, source, &[]);
    assert_eq!(
        seen,
        vec![
            ForkStage::CreateChild,
            ForkStage::Pause,
            ForkStage::ForkFilesystem,
            ForkStage::ReadDirtyLog,
            ForkStage::CopyPages,
            ForkStage::MapSource,
            ForkStage::MapChild,
            ForkStage::RegisterChild,
            ForkStage::Resume,
        ]
    );
    let child = child.unwrap();
    assert_eq!(child.into_raw(), 2);
    assert_eq!(supervisor.vm_ids(), vec![source, child]);
    assert_eq!(supervisor.last_fork_pause(), Some(250));
    assert_eq!(supervisor.vm(child).unwrap().filesystem, restored(6));
    assert_eq!(supervisor.vm(source).unwrap().filesystem, restored(5));
    let accounting = supervisor.page_accounting(NO_FILES);
    assert_eq!(accounting.filesystem, NO_FILES);
    assert_eq!(accounting.memory.resident_pages, 2);
    assert_eq!(accounting.memory.shared_pages, 2);
    assert_eq!(accounting.memory.backing_files, 1);

    let grandchild = fork(&mut supervisor, child, &[]).1.unwrap();
    let accounting = supervisor.page_accounting(NO_FILES);
    assert_eq!(accounting.memory.resident_pages, 3);
    assert_eq!(accounting.memory.shared_pages, 2);
    assert_eq!(accounting.memory.backing_files, 2);
    supervisor.remove_vm(source).unwrap();
    supervisor.remove_vm(child).unwrap();
    let accounting = supervisor.page_accounting(NO_FILES);
    assert_eq!(accounting.memory.resident_pages, 2);
    assert_eq!(accounting.memory.shared_pages, 0);
    assert!(supervisor.vm(grandchild).is_ok());
}

#[test]
fn failed_fork_resumes_the_source_and_adds_no_guest() {
    let mut supervisor = KvmSupervisor::new(false);
    let source = create(&mut supervisor, None).1.unwrap();

    let fails = [(ForkStage::CopyPages, "ram"), (ForkStage::Resume, "resume")];
    let (seen, result) = fork(&mut supervisor, source, &fails);
    assert!(is_failure(&result, "ram"));
    assert_eq!(seen.last(), Some(&ForkStage::Resume));

    let (seen, result) = fork(&mut supervisor, source, &[(ForkStage::ReadDirtyLog, "log")]);
    assert!(is_failure(&result, "log"));
    assert_eq!(seen.last(), Some(&ForkStage::Resume));

    let fails = [
        (ForkStage::Resume, "resume"),
        (ForkStage::UnregisterChild, "unregister"),
    ];
    let (seen, result) = fork(&mut supervisor, source, &fails);
    assert!(is_failure(&result, "resume"));
    assert_eq!(seen.last(), Some(&ForkStage::UnregisterChild));

    let (seen, result) = fork(&mut supervisor, source, &[(ForkStage::Pause, "pause")]);
    assert!(is_failure(&result, "pause"));
    assert_eq!(seen.last(), Some(&ForkStage::Pause));

    let missing = KvmVmId::from_raw(9);
    let (_, result) = fork(&mut supervisor, missing, &[]);
    assert!(matches!(result, Err(SupervisorError::VmNotFound(vm)) if vm == missing));
    assert_eq!(supervisor.vm_ids(), vec![source]);
    assert_eq!(supervisor.last_fork_pause(), None);
}

#[test]
fn guest_needs_whole_pages_of_memory() {
    let supervisor = KvmSupervisor::new(false);
    let mut creation = supervisor.create_vm(5000);
    creation.vm_created(Ok(()), &mut RamIds::new());
    assert_eq!(creation.stage(), CreateStage::Done);
    let mut supervisor = supervisor;
    assert!(matches!(
        supervisor.finish_creation(creation),
        Err(SupervisorError::Vmm(Error::InvalidRamSize(5000)))
    ));
    assert!(matches!(
        supervisor.create_cloud_vm(0, None, &mut RamIds::new()),
        Err(SupervisorError::Vmm(Error::InvalidRamSize(0)))
    ));
}

#[test]
fn paused_guest_is_read_and_written() {
    let mut supervisor = KvmSupervisor::new(false);
    let vm = create(&mut supervisor, None).1.unwrap();
    let mut memory = vec![0; 2 * 4096];
    supervisor.write_ram(vm, &mut memory, 4095, b"hello").unwrap();
    assert_eq!(&memory[4095..4100], b"hello");
    assert_eq!(supervisor.read_ram(vm, &memory, 4096, 3).unwrap(), b"ell");
    assert!(matches!(
        supervisor.write_ram(vm, &mut memory, 8190, b"hello"),
        Err(SupervisorError::Vmm(Error::RamRange { offset: 8190, len: 5 }))
    ));
    let missing = KvmVmId::from_raw(9);
    assert!(matches!(
        supervisor.read_ram(missing, &memory, 0, 1),
        Err(SupervisorError::VmNotFound(vm)) if vm == missing
    ));
}

/// Makes a guest with a device model.
fn create_cloud(supervisor: &mut KvmSupervisor, ids: &mut RamIds) -> KvmVmId {
    let mut creation = supervisor.create_cloud_vm(2 * 4096, None, ids).unwrap();
    assert_eq!(creation.actions().len(), 2);
    while creation.stage() != CloudCreateStage::Done {
        match creation.stage() {
            CloudCreateStage::CreateFilesystem => creation.filesystem_created(Ok(restored(8))),
            _ => creation.advance(Ok(())),
        }
    }
    let devices = creation.devices().as_ref().unwrap();
    assert_eq!(devices.len(), 1);
    assert_eq!(devices[0].tag, "minidox");
    assert_eq!(devices[0].in_process_backend_id, Some(8));
    supervisor.finish_cloud_creation(creation).unwrap()
}

#[test]
fn guest_with_a_device_model_is_forked_in_its_own_way() {
    let mut supervisor = KvmSupervisor::new(false);
    let mut ids = RamIds::new();
    let source = create_cloud(&mut supervisor, &mut ids);
    assert_eq!(supervisor.kind(source).unwrap(), BackendKind::Cloud);

    let run = |supervisor: &mut KvmSupervisor, ids: &mut RamIds, taken: Vec<usize>, failed| {
        let mut fork = match supervisor.fork_vm(source) {
            Ok(GuestFork::Cloud(fork)) => fork,
            _ => panic!("the guest has a device model"),
        };
        let mut seen = Vec::new();
        let mut taken = Some(taken);
        while fork.stage() != CloudForkStage::Done {
            let stage = fork.stage();
            seen.push(stage);
            let failed = if failed == Some(stage) { Some("fork") } else { None };
            match stage {
                CloudForkStage::TakeDirtyPages => {
                    fork.dirty_pages_taken(outcome(failed, taken.take().unwrap()), ids)
                }
                CloudForkStage::CaptureState => {
                    let capture = ForkCapture {
                        devices: Some(vec![branch_device(8, 4096)]),
                        dirty_ram_pages: vec![1],
                    };
                    fork.state_captured(outcome(failed, capture))
                }
                CloudForkStage::ForkFilesystem => {
                    fork.filesystem_forked(outcome(failed, restored(9)), ids)
                }
                _ => fork.advance(outcome(failed, ())),
            }
        }
        (seen, fork)
    };
    let fails = Some(CloudForkStage::CaptureState);
    let (seen, fork) = run(&mut supervisor, &mut ids, vec![0], fails);
    assert_eq!(
        seen,
        vec![
            CloudForkStage::TakeDirtyPages,
            CloudForkStage::PrepareRam,
            CloudForkStage::Pause,
            CloudForkStage::CaptureState,
            CloudForkStage::Resume,
        ]
    );
    assert!(supervisor.finish_cloud_fork(fork, 1).is_err());

    let (seen, fork) = run(&mut supervisor, &mut ids, vec![7, 3], None);
    assert_eq!(seen, vec![CloudForkStage::TakeDirtyPages]);
    assert!(matches!(
        supervisor.finish_cloud_fork(fork, 1),
        Err(SupervisorError::Vmm(Error::InvalidDirtyPage { page: 3, pages: 2 }))
    ));

    let (seen, fork) = run(&mut supervisor, &mut ids, vec![0], None);
    assert_eq!(seen.len(), 13);
    let devices = fork.capture().as_ref().unwrap().devices.as_ref().unwrap();
    assert_eq!(devices[0].in_process_backend_id, Some(9));
    let child = supervisor.finish_cloud_fork(fork, 7).unwrap();
    assert_eq!(child.into_raw(), 2);
    assert_eq!(supervisor.kind(child).unwrap(), BackendKind::Cloud);
    assert_eq!(supervisor.last_fork_pause(), Some(7));
    assert_eq!(supervisor.page_accounting(NO_FILES).memory.shared_pages, 2);
}

#[test]
fn prepared_pages_are_copied_before_the_pause() {
    let mut supervisor = KvmSupervisor::new(false);
    let mut ids = RamIds::new();
    let source = create_cloud(&mut supervisor, &mut ids);
    let mut copied = Vec::new();
    for _ in 0..2 {
        let mut fork = match supervisor.fork_vm(source) {
            Ok(GuestFork::Cloud(fork)) => fork,
            _ => panic!("the guest has a device model"),
        };
        fork.dirty_pages_taken(Ok(vec![0]), &mut ids);
        assert_eq!(fork.stage(), CloudForkStage::PrepareRam);
        copied.push(fork.actions().clone());
        fork.advance(Ok(()));
        fork.advance(Ok(()));
        fork.state_captured(Ok(ForkCapture {
            devices: None,
            dirty_ram_pages: vec![1],
        }));
        fork.filesystem_forked(Ok(restored(9)), &mut ids);
        assert_eq!(fork.stage(), CloudForkStage::CopyPages);
        copied.push(fork.actions().clone());
        while fork.stage() != CloudForkStage::Done {
            fork.advance(Ok(()));
        }
        supervisor.finish_cloud_fork(fork, 1).unwrap();
    }
    let copy = |page, generation, offset| RamAction::CopyPage {
        page,
        generation,
        offset,
    };
    assert_eq!(copied[0], vec![copy(0, 1, 0)]);
    assert_eq!(copied[1], vec![copy(1, 1, 4096)]);
    assert!(copied[2].contains(&copy(0, 2, 0)));
    assert!(copied[3].contains(&copy(1, 2, 4096)));
}

#[test]
fn operation_counts_before_the_resume_after_it() {
    let mut supervisor = KvmSupervisor::new(false);
    let vm = create(&mut supervisor, None).1.unwrap();

    let mut access = supervisor.write_memory(vm).unwrap();
    access.advance(Ok(()));
    assert_eq!(access.stage(), BarrierStage::Operate);
    access.advance(Err(failure("operation")));
    assert_eq!(access.stage(), BarrierStage::Resume);
    access.advance(Err(failure("resume")));
    assert!(is_failure(&access.finish(), "operation"));

    let mut access = supervisor.read_file(vm).unwrap();
    access.advance(Ok(()));
    access.advance(Ok(()));
    access.advance(Err(failure("resume")));
    assert!(is_failure(&access.finish(), "resume"));

    let mut access = supervisor.read_memory(vm).unwrap();
    access.advance(Err(failure("pause")));
    assert_eq!(access.stage(), BarrierStage::Done);
    assert!(is_failure(&access.finish(), "pause"));

    let mut access = supervisor.create_file(vm).unwrap();
    for _ in 0..3 {
        access.advance(Ok(()));
    }
    assert!(access.finish().is_ok());
    assert!(supervisor.write_file(KvmVmId::from_raw(5)).is_err());
}

fn checkpoint(
    supervisor: &KvmSupervisor,
    fails: &[(CheckpointStage, &'static str)],
) -> (Vec<CheckpointStage>, Result<(), SupervisorError>) {
    let mut checkpoint = supervisor.checkpoint().unwrap();
    let mut seen = Vec::new();
    while checkpoint.stage() != CheckpointStage::Done {
        let stage = checkpoint.stage();
        seen.push(stage);
        let failed = fails.iter().find(|(fails, _)| *fails == stage);
        checkpoint.advance(match failed {
            Some((_, operation)) => Err(failure(operation)),
            None => Ok(()),
        });
    }
    (seen, checkpoint.finish())
}

#[test]
fn checkpoint_pauses_all_guests_and_resumes_them_in_reverse() {
    let mut supervisor = KvmSupervisor::new(true);
    assert_eq!(checkpoint(&supervisor, &[]).0, vec![CheckpointStage::Publish]);
    create(&mut supervisor, None).1.unwrap();
    create(&mut supervisor, None).1.unwrap();
    let (seen, result) = checkpoint(&supervisor, &[]);
    assert!(result.is_ok());
    assert_eq!(
        seen,
        vec![
            CheckpointStage::Pause(0),
            CheckpointStage::Pause(1),
            CheckpointStage::SealRam(0),
            CheckpointStage::SaveFilesystem(0),
            CheckpointStage::SaveRam(0),
            CheckpointStage::SealRam(1),
            CheckpointStage::SaveFilesystem(1),
            CheckpointStage::SaveRam(1),
            CheckpointStage::Resume(1),
            CheckpointStage::Resume(0),
            CheckpointStage::Publish,
        ]
    );
    let begun = supervisor.checkpoint().unwrap();
    assert_eq!(begun.ids(), &supervisor.vm_ids());
    assert_eq!(begun.next_numbers(), (3, 3));
}

#[test]
fn failed_checkpoint_publishes_nothing() {
    let mut supervisor = KvmSupervisor::new(true);
    create(&mut supervisor, None).1.unwrap();
    create(&mut supervisor, None).1.unwrap();

    let (seen, result) = checkpoint(&supervisor, &[(CheckpointStage::Pause(1), "pause")]);
    assert!(is_failure(&result, "pause"));
    assert_eq!(seen.last(), Some(&CheckpointStage::Unwind(0)));

    let fails = [
        (CheckpointStage::SaveFilesystem(0), "save"),
        (CheckpointStage::Resume(1), "resume"),
    ];
    let (seen, result) = checkpoint(&supervisor, &fails);
    assert!(is_failure(&result, "save"));
    assert_eq!(
        seen[3..],
        [
            CheckpointStage::SaveFilesystem(0),
            CheckpointStage::Resume(1),
            CheckpointStage::Resume(0),
        ]
    );

    let fails = [
        (CheckpointStage::Resume(1), "first"),
        (CheckpointStage::Resume(0), "second"),
    ];
    let (seen, result) = checkpoint(&supervisor, &fails);
    assert!(is_failure(&result, "first"));
    assert!(!seen.contains(&CheckpointStage::Publish));

    assert!(matches!(
        KvmSupervisor::new(false).checkpoint(),
        Err(SupervisorError::DurabilityRequired)
    ));
}

fn saved(id: u64, lineage: u64, backend: DurableBackend) -> VmManifest {
    VmManifest {
        id,
        lineage,
        backend,
    }
}

fn manifest(version: u32, vms: Vec<VmManifest>) -> ForestManifest {
    ForestManifest {
        version,
        next_vm: 20,
        next_lineage: 30,
        vms,
    }
}

fn cloud(places: Vec<usize>) -> DurableBackend {
    DurableBackend::Cloud {
        devices: Some(vec![branch_device(1, 2), branch_device(3, 4)]),
        in_process_filesystems: places,
    }
}

/// The RAM of so many guests.
fn rams(count: usize) -> Vec<KvmGuestRam> {
    let mut ids = RamIds::new();
    (1..=count)
        .map(|pages| KvmGuestRam::new(pages * 4096, &mut ids).unwrap().0)
        .collect()
}

fn restored(backend_id: u64) -> InProcessFilesystem {
    InProcessFilesystem {
        backend_id,
        dax_window_size: 4096,
    }
}

#[test]
fn saved_forest_opens_lineage_by_lineage() {
    let vms = vec![
        saved(4, 9, DurableBackend::Raw),
        saved(7, 2, cloud(vec![1])),
        saved(5, 9, DurableBackend::Raw),
    ];
    let mut opening = match KvmSupervisor::open(Some(manifest(1, vms))).unwrap() {
        Opened::Saved(opening) => opening,
        Opened::Empty(_) => panic!("the forest was saved"),
    };
    let mut seen = Vec::new();
    loop {
        seen.push(opening.stage());
        match opening.stage() {
            OpenStage::Done => break,
            OpenStage::RestoreRams => opening.rams_restored(Ok(rams(3))),
            OpenStage::RestoreLineage(place) => {
                let (lineage, members) = opening.lineage(place);
                let base = 10 * lineage;
                opening.restored(Ok((0..members.len() as u64)
                    .map(|member| restored(base + member))
                    .collect()));
            }
            _ => opening.advance(Ok(())),
        }
    }
    assert_eq!(
        seen,
        vec![
            OpenStage::CreateHypervisor,
            OpenStage::RestoreRams,
            OpenStage::RestoreLineage(0),
            OpenStage::RestoreLineage(1),
            OpenStage::CreateVm(0),
            OpenStage::RegisterRam(0),
            OpenStage::StartWorker(1),
            OpenStage::RestoreState(1),
            OpenStage::BeginTracking(1),
            OpenStage::ResumeVm(1),
            OpenStage::CreateVm(2),
            OpenStage::RegisterRam(2),
            OpenStage::Done,
        ]
    );
    assert_eq!(opening.filesystem(0), Some(restored(90)));
    assert_eq!(opening.filesystem(1), Some(restored(20)));
    assert_eq!(opening.filesystem(2), Some(restored(91)));
    match &opening.vms()[1].backend {
        DurableBackend::Cloud {
            devices: Some(devices),
            ..
        } => {
            assert_eq!(devices[0].in_process_backend_id, Some(1));
            assert_eq!(devices[1].in_process_backend_id, Some(20));
            assert_eq!(devices[1].dax_window_size, 4096);
        }
        _ => panic!("the guest has devices"),
    }
    let supervisor = opening.finish().unwrap();
    assert!(supervisor.is_durable());
    assert_eq!(supervisor.next_numbers(), (20, 30));
    let ids: Vec<u64> = supervisor.vm_ids().into_iter().map(KvmVmId::into_raw).collect();
    assert_eq!(ids, vec![4, 5, 7]);
    assert_eq!(
        supervisor.kind(KvmVmId::from_raw(7)).unwrap(),
        BackendKind::Cloud
    );
}

#[test]
fn directory_without_manifest_opens_empty() {
    match KvmSupervisor::open(None).unwrap() {
        Opened::Empty(supervisor) => {
            assert!(supervisor.is_durable());
            assert!(supervisor.vm_ids().is_empty());
        }
        Opened::Saved(_) => panic!("nothing was saved"),
    }
    assert!(matches!(
        KvmSupervisor::open(Some(manifest(2, Vec::new()))),
        Err(SupervisorError::UnsupportedManifestVersion(2))
    ));
}

/// Opens a forest of one guest that finds these filesystems.
fn open_one(backend: DurableBackend, found: Vec<InProcessFilesystem>) -> SupervisorError {
    let vms = vec![saved(1, 1, backend)];
    let mut opening = match KvmSupervisor::open(Some(manifest(1, vms))).unwrap() {
        Opened::Saved(opening) => opening,
        Opened::Empty(_) => panic!("the forest was saved"),
    };
    opening.advance(Ok(()));
    opening.rams_restored(Ok(rams(1)));
    opening.restored(Ok(found));
    assert_eq!(opening.stage(), OpenStage::Done);
    opening.finish().unwrap_err()
}

#[test]
fn forest_with_missing_parts_does_not_open() {
    assert!(matches!(
        open_one(DurableBackend::Raw, Vec::new()),
        SupervisorError::Io(IoError::InvalidData("missing restored filesystem branch"))
    ));
    assert!(matches!(
        open_one(cloud(vec![0, 2]), vec![restored(1)]),
        SupervisorError::Io(IoError::InvalidData(
            "in-process filesystem index is outside VM config"
        ))
    ));
}

#[test]
fn devices_are_handed_to_filesystems() {
    let outside = FsConfig {
        tag: "host".to_string(),
        num_queues: 2,
        queue_size: 128,
        in_process_backend_id: None,
        dax_window_size: 0,
    };
    let mut devices = vec![outside, branch_device(5, 6)];
    assert_eq!(devices[1].tag, "minidox");
    assert_eq!((devices[1].num_queues, devices[1].queue_size), (1, 1024));
    assert_eq!(in_process_filesystems(&devices), vec![1]);
    retarget_filesystems(&mut devices, 8, 9);
    assert_eq!(devices[0].in_process_backend_id, None);
    assert_eq!(devices[1].in_process_backend_id, Some(8));
    assert_eq!(devices[1].dax_window_size, 9);
    attach_filesystems(&mut devices, &vec![0, 0], 3, 4).unwrap();
    assert_eq!(in_process_filesystems(&devices), vec![0, 1]);
    assert!(attach_filesystems(&mut devices, &vec![2], 3, 4).is_err());
}

fn causes(text: &str) -> Vec<String> {
    vec![text.to_string()]
}

#[test]
fn worker_lifecycle() {
    let mut vm = CloudHypervisorVm::start();
    vm.started(Ok(())).unwrap();
    assert_eq!(
        vm.started(Err(causes("no fds"))).unwrap_err().message(),
        "create VMM exit eventfd: no fds"
    );
    assert!(!vm.take_worker());
    while vm.stage() != StartStage::Running {
        vm.started(Ok(())).unwrap();
    }
    vm.create(Ok(())).unwrap();
    assert_eq!(
        vm.boot(Err(SendFailure::Request(causes("no kernel"))))
            .unwrap_err()
            .message(),
        "boot VM: no kernel"
    );
    assert_eq!(
        vm.pause(Err(SendFailure::Event(causes("no fds"))))
            .unwrap_err()
            .message(),
        "clone VMM API eventfd: no fds"
    );
    assert!(vm.resume(Ok(())).is_ok());
    assert!(vm.take_worker());
    assert!(!vm.take_worker());
    let sent = || Err(SendFailure::Request(causes("gone")));
    assert!(matches!(
        vm.shutdown(sent(), WorkerExit::Panicked),
        Err(Error::WorkerPanicked)
    ));
    assert_eq!(
        vm.shutdown(sent(), WorkerExit::Failed(causes("exit")))
            .unwrap_err()
            .message(),
        "VMM worker exit: exit"
    );
    assert_eq!(
        vm.shutdown(sent(), WorkerExit::Clean).unwrap_err().message(),
        "shut down VMM: gone"
    );
    assert!(vm.shutdown(Ok(()), WorkerExit::Clean).is_ok());
}

#[test]
fn memory_slot_is_rolled_back() {
    let (ram, _) = KvmGuestRam::new(4096, &mut RamIds::new()).unwrap();
    let mut registration = ram.register();
    assert!(registration.advance(Ok(())).is_none());
    assert!(registration.advance(Err(causes("no log"))).is_none());
    assert_eq!(registration.stage(), RegisterStage::RollBack);
    let error = registration.advance(Err(causes("no slot"))).unwrap();
    assert_eq!(
        error.unwrap_err().message(),
        "start KVM dirty log: no log; memory-slot rollback also failed: no slot"
    );

    let mut registration = ram.register();
    registration.advance(Ok(()));
    registration.advance(Err(causes("no log")));
    let error = registration.advance(Ok(())).unwrap();
    assert_eq!(error.unwrap_err().message(), "start KVM dirty log: no log");

    let mut registration = ram.register();
    let error = registration.advance(Err(causes("busy"))).unwrap();
    assert_eq!(error.unwrap_err().message(), "register KVM RAM: busy");

    let mut registration = ram.register();
    registration.advance(Ok(()));
    assert!(registration.advance(Ok(())).unwrap().is_ok());
    assert_eq!(
        ram.unregister(Err(causes("busy"))).unwrap_err().message(),
        "unregister KVM RAM: busy"
    );
}

#[test]
fn supervisor_error_texts() {
    assert_eq!(
        SupervisorError::VmNotFound(KvmVmId::from_raw(12)).message(""),
        "VM KvmVmId(12) does not exist"
    );
    assert_eq!(
        SupervisorError::UnsupportedManifestVersion(3).message(""),
        "manifest version 3 is not supported"
    );
    assert_eq!(
        SupervisorError::DurabilityRequired.message(""),
        "checkpoint requires a supervisor opened with durable storage"
    );
    assert_eq!(failure("pause").message(""), "pause: failed");
    assert_eq!(
        SupervisorError::Json("eof".to_string()).message("eof"),
        "eof"
    );
}

#[test]
fn saved_forest_opens_again_with_its_guests_and_devices() {
    let mut supervisor = KvmSupervisor::new(true);
    let raw = create(&mut supervisor, None).1.unwrap();
    let cloud = create_cloud(&mut supervisor, &mut RamIds::new());
    let checkpoint = supervisor.checkpoint().unwrap();
    assert_eq!(checkpoint.ids(), &vec![raw, cloud]);

    let mut outside = branch_device(5, 6);
    outside.in_process_backend_id = None;
    let captured = vec![
        CapturedGuest {
            lineage: 1,
            devices: None,
        },
        CapturedGuest {
            lineage: 1,
            devices: Some(vec![outside, branch_device(7, 8)]),
        },
    ];
    let manifest = checkpoint.manifest(captured);
    assert_eq!(manifest.version, MANIFEST_VERSION);
    assert_eq!((manifest.next_vm, manifest.next_lineage), (3, 2));
    assert_eq!(manifest.vms[0].id, 1);
    assert!(matches!(manifest.vms[0].backend, DurableBackend::Raw));
    match &manifest.vms[1].backend {
        DurableBackend::Cloud {
            in_process_filesystems,
            ..
        } => assert_eq!(in_process_filesystems, &vec![1]),
        DurableBackend::Raw => panic!("a cloud hypervisor ran the guest"),
    }

    let mut opening = match KvmSupervisor::open(Some(manifest)).unwrap() {
        Opened::Saved(opening) => opening,
        Opened::Empty(_) => panic!("the forest was saved"),
    };
    while opening.stage() != OpenStage::Done {
        match opening.stage() {
            OpenStage::RestoreRams => opening.rams_restored(Ok(rams(2))),
            OpenStage::RestoreLineage(_) => opening.restored(Ok(vec![restored(40), restored(41)])),
            _ => opening.advance(Ok(())),
        }
    }
    match &opening.vms()[1].backend {
        DurableBackend::Cloud {
            devices: Some(devices),
            ..
        } => {
            assert_eq!(devices[0].in_process_backend_id, None);
            assert_eq!(devices[0].dax_window_size, 6);
            assert_eq!(devices[1].in_process_backend_id, Some(41));
            assert_eq!(devices[1].dax_window_size, 4096);
        }
        _ => panic!("the guest has devices"),
    }
    let opened = opening.finish().unwrap();
    assert_eq!(opened.vm_ids(), supervisor.vm_ids());
    assert_eq!(opened.kind(raw).unwrap(), BackendKind::Raw);
    assert_eq!(opened.kind(cloud).unwrap(), BackendKind::Cloud);
    assert_eq!(opened.vm(raw).unwrap().filesystem, restored(40));
    assert_eq!(opened.vm(cloud).unwrap().ram.len(), 2 * 4096);
    assert_eq!(opened.next_numbers(), supervisor.next_numbers());
}
