//! How guests are forked: filesystem and RAM under one barrier.

use vstd::prelude::*;

#[allow(unused_imports)]
use crate::vmm::barrier::first_failure;
use crate::vmm::devices::{retarget_filesystems, FsConfig, InProcessFilesystem};
#[allow(unused_imports)]
use crate::vmm::devices::retargeted;
#[allow(unused_imports)]
use crate::vmm::error::Error;
use crate::vmm::ram::{KvmGuestRam, RamAction, RamForkBranch, RamForkPlan, RamForkPreparation, RamIds};
#[allow(unused_imports)]
use crate::vmm::ram::{
    branch_ram, every_page, finishes, first_stray, forks_at_once, installs, least_stray, prepares, runs_cover, PreparationView, RamPage,
    RamView,
};
use crate::vmm::supervisor::{BackendKind, KvmVmId, SupervisedVm, SupervisorError};
#[allow(unused_imports)]
use crate::vmm::supervisor::GuestView;

verus! {

/// The operations in which a guest without a device model is forked.
#[derive(Clone, Copy, Debug, Eq, PartialEq, Structural)]
pub enum ForkStage {
    CreateChild,
    Pause,
    ForkFilesystem,
    ReadDirtyLog,
    /// Copies the dirty pages of RAM.
    CopyPages,
    /// Maps the source's RAM anew.
    MapSource,
    /// Maps the child's RAM.
    MapChild,
    RegisterChild,
    Resume,
    UnregisterChild,
    Done,
}

/// The operation after `stage`; `failed` says whether an earlier one has failed, `ok` whether this
/// one succeeded.
pub open spec fn fork_next(stage: ForkStage, failed: bool, ok: bool) -> ForkStage {
    match stage {
        ForkStage::CreateChild => if ok { ForkStage::Pause } else { ForkStage::Done },
        ForkStage::Pause => if ok { ForkStage::ForkFilesystem } else { ForkStage::Done },
        ForkStage::ForkFilesystem => if ok { ForkStage::ReadDirtyLog } else { ForkStage::Resume },
        ForkStage::ReadDirtyLog => if ok { ForkStage::CopyPages } else { ForkStage::Resume },
        ForkStage::CopyPages => if ok { ForkStage::MapSource } else { ForkStage::Resume },
        ForkStage::MapSource => if ok { ForkStage::MapChild } else { ForkStage::Resume },
        ForkStage::MapChild => if ok { ForkStage::RegisterChild } else { ForkStage::Resume },
        ForkStage::RegisterChild => ForkStage::Resume,
        ForkStage::Resume => if !failed && !ok { ForkStage::UnregisterChild } else { ForkStage::Done },
        ForkStage::UnregisterChild => ForkStage::Done,
        ForkStage::Done => ForkStage::Done,
    }
}

/// Where the fork of a guest without a device model stands.
#[verifier::ext_equal]
pub struct ForkView {
    pub id: u64,
    pub source: GuestView,
    pub stage: ForkStage,
    pub failure: Option<SupervisorError>,
    /// The pages of RAM that are to be put in place.
    pub prepared: Option<PreparationView>,
    /// What has to be done with the RAM.
    pub actions: Seq<RamAction>,
    /// The filesystem of the child.
    pub filesystem: Option<InProcessFilesystem>,
    /// The RAM of the child.
    pub child: Option<RamView>,
}

impl ForkView {
    /// Whether what was forked so far is there.
    pub open spec fn inv(self) -> bool {
        &&& self.source.ram.wf()
        &&& self.child matches Some(ram) ==> ram == branch_ram(self.source.ram.pages)
        &&& self.prepared is Some ==> self.stage is CopyPages || self.failure is Some
        &&& match self.stage {
            ForkStage::CreateChild => self.failure is None && self.child is None,
            ForkStage::Pause => self.failure is None && self.child is None,
            ForkStage::ForkFilesystem => self.failure is None && self.child is None,
            ForkStage::ReadDirtyLog => self.failure is None && self.child is None && self.filesystem is Some,
            ForkStage::CopyPages => {
                &&& self.failure is None && self.child is None && self.filesystem is Some
                &&& self.prepared matches Some(prepared) && prepared.fits(self.source.ram)
            },
            ForkStage::MapSource => self.failure is None && self.child is None && self.filesystem is Some,
            ForkStage::MapChild => self.failure is None && self.child is Some && self.filesystem is Some,
            ForkStage::RegisterChild => self.failure is None && self.child is Some && self.filesystem is Some,
            ForkStage::Resume => self.failure is None ==> self.child is Some && self.filesystem is Some,
            ForkStage::UnregisterChild => self.failure is Some,
            ForkStage::Done => self.failure is None ==> self.child is Some && self.filesystem is Some,
        }
    }
}

/// What comes of the operations that only succeed or fail.
pub open spec fn fork_advanced(before: ForkView, outcome: Result<(), SupervisorError>, after: ForkView) -> bool {
    let moved = ForkView {
        stage: fork_next(before.stage, before.failure is Some, outcome is Ok),
        failure: first_failure(before.failure, !(before.stage is UnregisterChild), outcome),
        ..before
    };
    match before.stage {
        ForkStage::ForkFilesystem => after == before,
        ForkStage::ReadDirtyLog => after == before,
        ForkStage::Done => after == before,
        ForkStage::CopyPages => if outcome is Ok {
            let prepared = before.prepared->0;
            &&& installs(before.source.ram, prepared, after.actions)
            &&& after == (ForkView {
                source: GuestView { ram: before.source.ram.installed(prepared), ..before.source },
                prepared: None,
                actions: after.actions,
                ..moved
            })
        } else {
            after == moved
        },
        ForkStage::MapSource => if outcome is Ok {
            let pages = before.source.ram.pages;
            &&& runs_cover(pages, every_page(pages.len() as int), after.actions, true)
            &&& after == (ForkView {
                source: GuestView { ram: before.source.ram.forked(), ..before.source },
                actions: after.actions,
                child: Some(branch_ram(pages)),
                ..moved
            })
        } else {
            after == moved
        },
        _ => after == moved,
    }
}

/// What a fork is once the filesystem was forked, or could not be.
pub open spec fn filesystem_taken(before: ForkView, outcome: Result<InProcessFilesystem, SupervisorError>, after: ForkView) -> bool {
    after == (match outcome {
        Ok(filesystem) => ForkView { stage: ForkStage::ReadDirtyLog, filesystem: Some(filesystem), ..before },
        Err(e) => ForkView { stage: ForkStage::Resume, failure: Some(e), ..before },
    })
}

/// What a fork is once the dirty log was read and the copies planned, or could not be.
pub open spec fn dirty_log_taken(
    before: ForkView,
    outcome: Result<Vec<u64>, SupervisorError>,
    after: ForkView,
    had: RamIds,
    left: RamIds,
) -> bool {
    match outcome {
        Ok(log) => {
            let ram = before.source.ram;
            exists|plan: RamForkPlan|
                {
                    &&& #[trigger] forks_at_once(ram, plan, ram.dirty_with(log@), had, left)
                    &&& after == (ForkView {
                        stage: ForkStage::CopyPages,
                        prepared: Some(plan.preparation()),
                        actions: plan.spec_actions(),
                        ..before
                    })
                }
        },
        Err(e) => {
            &&& left == had
            &&& after == (ForkView { stage: ForkStage::Resume, failure: Some(e), ..before })
        },
    }
}

/// A guest without a device model that is being forked.
#[derive(Debug)]
pub struct VmFork {
    id: KvmVmId,
    source: SupervisedVm,
    stage: ForkStage,
    failure: Option<SupervisorError>,
    plan: Option<RamForkPlan>,
    actions: Vec<RamAction>,
    filesystem: Option<InProcessFilesystem>,
    child: Option<KvmGuestRam>,
}

impl View for VmFork {
    type V = ForkView;

    closed spec fn view(&self) -> ForkView {
        ForkView {
            id: self.id.number(),
            source: self.source@,
            stage: self.stage,
            failure: self.failure,
            prepared: match self.plan {
                Some(plan) => Some(plan.preparation()),
                None => None,
            },
            actions: match self.plan {
                Some(plan) => plan.spec_actions(),
                None => self.actions@,
            },
            filesystem: self.filesystem,
            child: match self.child {
                Some(child) => Some(child@),
                None => None,
            },
        }
    }
}

impl VmFork {
    pub open spec fn inv(self) -> bool {
        self@.inv()
    }

    /// The operation at hand.
    pub fn stage(&self) -> (stage: ForkStage)
        ensures
            stage == self@.stage,
    {
        self.stage
    }

    /// The guest that is forked.
    pub fn source(&self) -> (source: &SupervisedVm)
        ensures
            source@ == self@.source,
    {
        &self.source
    }

    /// The RAM of the child, as soon as it has any.
    pub fn child(&self) -> (child: Option<&KvmGuestRam>)
        ensures
            match child {
                Some(child) => self@.child == Some(child@),
                None => self@.child is None,
            },
    {
        self.child.as_ref()
    }

    /// What has to be done with the RAM.
    pub fn actions(&self) -> (actions: &Vec<RamAction>)
        ensures
            actions@ == self@.actions,
    {
        match &self.plan {
            Some(plan) => plan.actions(),
            None => &self.actions,
        }
    }

    /// Goes on once the filesystem was to be forked.
    pub fn filesystem_forked(&mut self, outcome: Result<InProcessFilesystem, SupervisorError>)
        requires
            old(self).inv(),
            old(self)@.stage is ForkFilesystem,
        ensures
            final(self).inv(),
            filesystem_taken(old(self)@, outcome, final(self)@),
    {
        match outcome {
            Ok(filesystem) => {
                self.filesystem = Some(filesystem);
                self.stage = ForkStage::ReadDirtyLog;
            },
            Err(error) => {
                self.failure = Some(error);
                self.stage = ForkStage::Resume;
            },
        }
    }

    /// Goes on once the hypervisor's dirty log was to be read: the pages in it and those that the
    /// host has written to are copied.
    pub fn dirty_log_read(&mut self, outcome: Result<Vec<u64>, SupervisorError>, ids: &mut RamIds)
        requires
            old(self).inv(),
            old(self)@.stage is ReadDirtyLog,
            old(self)@.source.ram.drawn_from(*old(ids)),
            old(ids).next_generation < u64::MAX,
            old(ids).next_page + old(self)@.source.ram.pages.len() <= u64::MAX,
        ensures
            final(self).inv(),
            dirty_log_taken(old(self)@, outcome, final(self)@, *old(ids), *final(ids)),
    {
        match outcome {
            Ok(log) => {
                self.plan = Some(self.source.ram.fork(&log, ids));
                self.stage = ForkStage::CopyPages;
            },
            Err(error) => {
                self.failure = Some(error);
                self.stage = ForkStage::Resume;
            },
        }
    }

    /// Goes on with the outcome of any other operation.
    pub fn advance(&mut self, outcome: Result<(), SupervisorError>)
        requires
            old(self).inv(),
        ensures
            final(self).inv(),
            fork_advanced(old(self)@, outcome, final(self)@),
    {
        let ok = outcome.is_ok();
        let failed = self.failure.is_some();
        let mut counted = true;
        let next = match self.stage {
            ForkStage::CreateChild => if ok { ForkStage::Pause } else { ForkStage::Done },
            ForkStage::Pause => if ok { ForkStage::ForkFilesystem } else { ForkStage::Done },
            ForkStage::CopyPages => if ok { ForkStage::MapSource } else { ForkStage::Resume },
            ForkStage::MapSource => if ok { ForkStage::MapChild } else { ForkStage::Resume },
            ForkStage::MapChild => if ok { ForkStage::RegisterChild } else { ForkStage::Resume },
            ForkStage::RegisterChild => ForkStage::Resume,
            ForkStage::Resume => if !failed && !ok { ForkStage::UnregisterChild } else { ForkStage::Done },
            ForkStage::UnregisterChild => {
                counted = false;
                ForkStage::Done
            },
            _ => {
                return;
            },
        };
        if ok {
            match self.stage {
                ForkStage::CopyPages => {
                    if let Some(plan) = self.plan.take() {
                        self.actions = self.source.ram.install(&plan);
                    }
                },
                ForkStage::MapSource => {
                    let branch = self.source.ram.commit();
                    let (child, actions) = branch.materialize();
                    self.actions = actions;
                    self.child = Some(child);
                },
                _ => {},
            }
        }
        self.stage = next;
        if !failed && counted {
            if let Err(error) = outcome {
                self.failure = Some(error);
            }
        }
    }

    /// The source and the child.
    pub(crate) fn finish(self) -> (r: (KvmVmId, SupervisedVm, Result<SupervisedVm, SupervisorError>))
        requires
            self.inv(),
            self@.stage is Done,
        ensures
            r.0.number() == self@.id,
            r.1@ == self@.source,
            match self@.failure {
                Some(e) => r.2 == Err::<SupervisedVm, SupervisorError>(e),
                None => {
                    &&& self@.filesystem is Some
                    &&& r.2 is Ok
                    &&& r.2->Ok_0@ == (GuestView {
                        kind: BackendKind::Raw,
                        ram: branch_ram(self@.source.ram.pages),
                        filesystem: self@.filesystem->0,
                    })
                },
            },
    {
        if let Some(error) = self.failure {
            return (self.id, self.source, Err(error));
        }
        let ram = self.child.unwrap();
        let filesystem = self.filesystem.unwrap();
        (self.id, self.source, Ok(SupervisedVm { kind: BackendKind::Raw, ram, filesystem }))
    }
}

/// The operations in which a guest with a device model is forked.
#[derive(Clone, Copy, Debug, Eq, PartialEq, Structural)]
pub enum CloudForkStage {
    TakeDirtyPages,
    /// Copies dirty pages of RAM while the guest still runs.
    PrepareRam,
    Pause,
    CaptureState,
    ForkFilesystem,
    /// Copies the pages that are dirty now.
    CopyPages,
    /// Maps the source's RAM anew.
    MapSource,
    Resume,
    /// Maps the child's RAM.
    MapChild,
    StartWorker,
    RestoreState,
    BeginTracking,
    ResumeChild,
    Done,
}

/// The operation after `stage`; `failed` says whether an earlier one has failed, `ok` whether this
/// one succeeded.
pub open spec fn cloud_fork_next(stage: CloudForkStage, failed: bool, ok: bool) -> CloudForkStage {
    match stage {
        CloudForkStage::TakeDirtyPages => if ok { CloudForkStage::PrepareRam } else { CloudForkStage::Done },
        CloudForkStage::PrepareRam => if ok { CloudForkStage::Pause } else { CloudForkStage::Done },
        CloudForkStage::Pause => if ok { CloudForkStage::CaptureState } else { CloudForkStage::Done },
        CloudForkStage::CaptureState => if ok { CloudForkStage::ForkFilesystem } else { CloudForkStage::Resume },
        CloudForkStage::ForkFilesystem => if ok { CloudForkStage::CopyPages } else { CloudForkStage::Resume },
        CloudForkStage::CopyPages => if ok { CloudForkStage::MapSource } else { CloudForkStage::Resume },
        CloudForkStage::MapSource => CloudForkStage::Resume,
        CloudForkStage::Resume => if !failed && ok { CloudForkStage::MapChild } else { CloudForkStage::Done },
        CloudForkStage::MapChild => if ok { CloudForkStage::StartWorker } else { CloudForkStage::Done },
        CloudForkStage::StartWorker => if ok { CloudForkStage::RestoreState } else { CloudForkStage::Done },
        CloudForkStage::RestoreState => if ok { CloudForkStage::BeginTracking } else { CloudForkStage::Done },
        CloudForkStage::BeginTracking => if ok { CloudForkStage::ResumeChild } else { CloudForkStage::Done },
        CloudForkStage::ResumeChild => CloudForkStage::Done,
        CloudForkStage::Done => CloudForkStage::Done,
    }
}

/// What is captured of a paused guest.
#[derive(Debug)]
pub struct ForkCapture {
    /// The filesystem devices of the configuration, if it has any.
    pub devices: Option<Vec<FsConfig>>,
    /// The pages of RAM that were written to since pages were last taken.
    pub dirty_ram_pages: Vec<usize>,
}

/// Where the fork of a guest with a device model stands.
#[verifier::ext_equal]
pub struct CloudForkView {
    pub id: u64,
    pub source: GuestView,
    pub stage: CloudForkStage,
    pub failure: Option<SupervisorError>,
    /// The pages of RAM that are to be put in place.
    pub prepared: Option<PreparationView>,
    /// What has to be done with the RAM.
    pub actions: Seq<RamAction>,
    /// What was captured of the source, for the child.
    pub capture: Option<ForkCapture>,
    /// The filesystem of the child.
    pub filesystem: Option<InProcessFilesystem>,
    /// The pages of the child's RAM.
    pub branch: Option<Seq<RamPage>>,
}

impl CloudForkView {
    /// Whether what was forked so far is there.
    pub open spec fn inv(self) -> bool {
        let forked = self.branch is Some && self.filesystem is Some && self.capture is Some;
        &&& self.source.ram.wf()
        &&& self.branch matches Some(pages) ==> pages == self.source.ram.pages
        &&& match self.stage {
            CloudForkStage::TakeDirtyPages => self.failure is None && self.branch is None,
            CloudForkStage::PrepareRam => self.failure is None && self.branch is None && self.prepares(),
            CloudForkStage::Pause => self.failure is None && self.branch is None && self.prepares(),
            CloudForkStage::CaptureState => self.failure is None && self.branch is None && self.prepares(),
            CloudForkStage::ForkFilesystem => self.failure is None && self.branch is None && self.prepares() && self.capture is Some,
            CloudForkStage::CopyPages => {
                &&& self.failure is None && self.branch is None && self.prepares()
                &&& self.capture is Some && self.filesystem is Some
            },
            CloudForkStage::MapSource => self.failure is None && self.branch is None && self.capture is Some && self.filesystem is Some,
            CloudForkStage::Resume => self.failure is None ==> forked,
            CloudForkStage::MapChild => self.failure is None && forked,
            CloudForkStage::StartWorker => self.failure is None && forked,
            CloudForkStage::RestoreState => self.failure is None && forked,
            CloudForkStage::BeginTracking => self.failure is None && forked,
            CloudForkStage::ResumeChild => self.failure is None && forked,
            CloudForkStage::Done => self.failure is None ==> forked,
        }
    }

    /// Whether what was prepared fits the source's RAM.
    pub open spec fn prepares(self) -> bool {
        self.prepared matches Some(prepared) && prepared.fits(self.source.ram)
    }
}

/// What comes of the operations that only succeed or fail.
pub open spec fn cloud_fork_advanced(before: CloudForkView, outcome: Result<(), SupervisorError>, after: CloudForkView) -> bool {
    let moved = CloudForkView {
        stage: cloud_fork_next(before.stage, before.failure is Some, outcome is Ok),
        failure: first_failure(before.failure, true, outcome),
        ..before
    };
    match before.stage {
        CloudForkStage::TakeDirtyPages => after == before,
        CloudForkStage::CaptureState => after == before,
        CloudForkStage::ForkFilesystem => after == before,
        CloudForkStage::Done => after == before,
        CloudForkStage::CopyPages => if outcome is Ok {
            let prepared = before.prepared->0;
            &&& installs(before.source.ram, prepared, after.actions)
            &&& after == (CloudForkView {
                source: GuestView { ram: before.source.ram.installed(prepared), ..before.source },
                prepared: None,
                actions: after.actions,
                ..moved
            })
        } else {
            after == moved
        },
        CloudForkStage::MapSource => if outcome is Ok {
            after == (CloudForkView {
                source: GuestView { ram: before.source.ram.forked(), ..before.source },
                branch: Some(before.source.ram.pages),
                ..moved
            })
        } else {
            after == moved
        },
        CloudForkStage::Resume => if outcome is Ok && before.failure is None {
            let pages = before.source.ram.pages;
            &&& runs_cover(pages, every_page(pages.len() as int), after.actions, true)
            &&& after == (CloudForkView { actions: after.actions, ..moved })
        } else {
            after == moved
        },
        _ => after == moved,
    }
}

/// What a fork is once the dirty pages were taken and the first copies planned, or could not be.
pub open spec fn preparation_begun(
    before: CloudForkView,
    outcome: Result<Vec<usize>, SupervisorError>,
    after: CloudForkView,
    had: RamIds,
    left: RamIds,
) -> bool {
    match outcome {
        Ok(pages) => {
            let ram = before.source.ram;
            ||| {
                &&& after.prepared is Some
                &&& prepares(ram, pages@, after.prepared->0, after.actions, had, left)
                &&& after == (CloudForkView {
                    stage: CloudForkStage::PrepareRam,
                    prepared: after.prepared,
                    actions: after.actions,
                    ..before
                })
            }
            ||| exists|e: Error|
                {
                    &&& #[trigger] least_stray(pages@, ram.pages.len(), e)
                    &&& left == had
                    &&& after == (CloudForkView {
                        stage: CloudForkStage::Done,
                        failure: Some(SupervisorError::Vmm(e)),
                        ..before
                    })
                }
        },
        Err(e) => {
            &&& left == had
            &&& after == (CloudForkView { stage: CloudForkStage::Done, failure: Some(e), ..before })
        },
    }
}

/// What a fork is once the state of the guest was captured, or could not be.
pub open spec fn capture_taken(before: CloudForkView, outcome: Result<ForkCapture, SupervisorError>, after: CloudForkView) -> bool {
    after == (match outcome {
        Ok(capture) => CloudForkView { stage: CloudForkStage::ForkFilesystem, capture: Some(capture), ..before },
        Err(e) => CloudForkView { stage: CloudForkStage::Resume, failure: Some(e), ..before },
    })
}

/// What a fork is once the filesystem was forked and the last copies planned, or could not be.
pub open spec fn cloud_filesystem_taken(
    before: CloudForkView,
    outcome: Result<InProcessFilesystem, SupervisorError>,
    after: CloudForkView,
    had: RamIds,
    left: RamIds,
) -> bool {
    match outcome {
        Ok(filesystem) => {
            let was = before.capture->0;
            let now = after.capture->0;
            &&& before.capture is Some && before.prepared is Some
            &&& after.capture is Some
            &&& now.dirty_ram_pages == was.dirty_ram_pages
            &&& hands_over(was.devices, filesystem, now.devices)
            &&& {
                ||| exists|plan: RamForkPlan|
                    {
                        &&& #[trigger] finishes(
                            before.source.ram,
                            before.prepared->0,
                            was.dirty_ram_pages@,
                            plan,
                            had,
                            left,
                        )
                        &&& after == (CloudForkView {
                            stage: CloudForkStage::CopyPages,
                            prepared: Some(plan.preparation()),
                            actions: plan.spec_actions(),
                            capture: after.capture,
                            filesystem: Some(filesystem),
                            ..before
                        })
                    }
                ||| exists|e: Error|
                    {
                        &&& #[trigger] first_stray(was.dirty_ram_pages@, before.source.ram.pages.len(), e)
                        &&& left == had
                        &&& after == (CloudForkView {
                            stage: CloudForkStage::Resume,
                            failure: Some(SupervisorError::Vmm(e)),
                            prepared: None,
                            capture: after.capture,
                            filesystem: Some(filesystem),
                            ..before
                        })
                    }
            }
        },
        Err(e) => {
            &&& left == had
            &&& after == (CloudForkView { stage: CloudForkStage::Resume, failure: Some(e), ..before })
        },
    }
}

/// A guest with a device model that is being forked.
#[derive(Debug)]
pub struct CloudVmFork {
    id: KvmVmId,
    source: SupervisedVm,
    stage: CloudForkStage,
    failure: Option<SupervisorError>,
    preparation: Option<RamForkPreparation>,
    plan: Option<RamForkPlan>,
    actions: Vec<RamAction>,
    capture: Option<ForkCapture>,
    filesystem: Option<InProcessFilesystem>,
    branch: Option<RamForkBranch>,
    child: Option<KvmGuestRam>,
}

impl View for CloudVmFork {
    type V = CloudForkView;

    closed spec fn view(&self) -> CloudForkView {
        CloudForkView {
            id: self.id.number(),
            source: self.source@,
            stage: self.stage,
            failure: self.failure,
            prepared: match (self.preparation, self.plan) {
                (Some(preparation), _) => Some(preparation@),
                (None, Some(plan)) => Some(plan.preparation()),
                (None, None) => None,
            },
            actions: match self.plan {
                Some(plan) => plan.spec_actions(),
                None => self.actions@,
            },
            capture: self.capture,
            filesystem: self.filesystem,
            branch: match (self.branch, self.child) {
                (Some(branch), _) => Some(branch@),
                (None, Some(child)) => Some(child@.pages),
                (None, None) => None,
            },
        }
    }
}

impl CloudVmFork {
    /// Whether what was forked so far is there.
    pub closed spec fn inv(self) -> bool {
        let running = !(self.stage is TakeDirtyPages || self.stage is PrepareRam || self.stage is Pause || self.stage is CaptureState
            || self.stage is ForkFilesystem || self.stage is CopyPages || self.stage is MapSource || self.stage is Resume);
        &&& self@.inv()
        &&& self.stage is PrepareRam || self.stage is Pause || self.stage is CaptureState || self.stage is ForkFilesystem
            ==> self.preparation is Some && self.plan is None
        &&& self.stage is CopyPages ==> self.preparation is None && self.plan is Some
        &&& self.stage is TakeDirtyPages || self.stage is MapSource ==> self.preparation is None && self.plan is None
        &&& self.failure is None && self.stage is Resume ==> self.branch is Some && self.plan is None
        &&& self.failure is None && running ==> self.branch is None && self.plan is None
        &&& self.child matches Some(child) ==> child@ == branch_ram(self.source@.ram.pages)
    }

    /// The operation at hand.
    pub fn stage(&self) -> (stage: CloudForkStage)
        ensures
            stage == self@.stage,
    {
        self.stage
    }

    /// The guest that is forked.
    pub fn source(&self) -> (source: &SupervisedVm)
        ensures
            source@ == self@.source,
    {
        &self.source
    }

    /// The RAM of the child, from the operation on that maps it.
    pub fn child(&self) -> (child: Option<&KvmGuestRam>)
        requires
            self.inv(),
        ensures
            child matches Some(child) ==> child@ == branch_ram(self@.source.ram.pages),
            self@.stage is MapChild || self@.stage is StartWorker || self@.stage is RestoreState || self@.stage is BeginTracking
                || self@.stage is ResumeChild ==> child is Some,
    {
        self.child.as_ref()
    }

    /// What was captured of the source, for the child.
    pub fn capture(&self) -> (capture: &Option<ForkCapture>)
        ensures
            *capture == self@.capture,
    {
        &self.capture
    }

    /// What has to be done with the RAM.
    pub fn actions(&self) -> (actions: &Vec<RamAction>)
        ensures
            actions@ == self@.actions,
    {
        match &self.plan {
            Some(plan) => plan.actions(),
            None => &self.actions,
        }
    }

    /// Goes on once the dirty pages were taken from the hypervisor: they are copied while the guest
    /// still runs.
    pub fn dirty_pages_taken(&mut self, outcome: Result<Vec<usize>, SupervisorError>, ids: &mut RamIds)
        requires
            old(self).inv(),
            old(self)@.stage is TakeDirtyPages,
            old(self)@.source.ram.drawn_from(*old(ids)),
            old(ids).next_generation < u64::MAX,
            old(ids).next_page + old(self)@.source.ram.pages.len() <= u64::MAX,
        ensures
            final(self).inv(),
            preparation_begun(old(self)@, outcome, final(self)@, *old(ids), *final(ids)),
    {
        let pages = match outcome {
            Ok(pages) => pages,
            Err(error) => {
                self.failure = Some(error);
                self.stage = CloudForkStage::Done;
                return;
            },
        };
        match self.source.ram.prepare_fork(pages.as_slice(), ids) {
            Ok((preparation, actions)) => {
                self.preparation = Some(preparation);
                self.actions = actions;
                self.stage = CloudForkStage::PrepareRam;
            },
            Err(error) => {
                self.failure = Some(SupervisorError::Vmm(error));
                self.stage = CloudForkStage::Done;
            },
        }
    }

    /// Goes on once the state of the paused guest was to be captured.
    pub fn state_captured(&mut self, outcome: Result<ForkCapture, SupervisorError>)
        requires
            old(self).inv(),
            old(self)@.stage is CaptureState,
        ensures
            final(self).inv(),
            capture_taken(old(self)@, outcome, final(self)@),
    {
        match outcome {
            Ok(capture) => {
                self.capture = Some(capture);
                self.stage = CloudForkStage::ForkFilesystem;
            },
            Err(error) => {
                self.failure = Some(error);
                self.stage = CloudForkStage::Resume;
            },
        }
    }

    /// Goes on once the filesystem was to be forked: the child's devices are handed to its
    /// filesystem, and the pages that are dirty by now are copied.
    pub fn filesystem_forked(&mut self, outcome: Result<InProcessFilesystem, SupervisorError>, ids: &mut RamIds)
        requires
            old(self).inv(),
            old(self)@.stage is ForkFilesystem,
            old(ids).next_page + old(self)@.source.ram.pages.len() <= u64::MAX,
        ensures
            final(self).inv(),
            cloud_filesystem_taken(old(self)@, outcome, final(self)@, *old(ids), *final(ids)),
    {
        let filesystem = match outcome {
            Ok(filesystem) => filesystem,
            Err(error) => {
                self.failure = Some(error);
                self.stage = CloudForkStage::Resume;
                return;
            },
        };
        let mut capture = self.capture.take().unwrap();
        let preparation = self.preparation.take().unwrap();
        if let Some(devices) = &mut capture.devices {
            retarget_filesystems(devices, filesystem.backend_id, filesystem.dax_window_size);
        }
        self.filesystem = Some(filesystem);
        match self.source.ram.finish_prepared_branch(preparation, capture.dirty_ram_pages.as_slice(), ids) {
            Ok(plan) => {
                self.plan = Some(plan);
                self.stage = CloudForkStage::CopyPages;
            },
            Err(error) => {
                self.failure = Some(SupervisorError::Vmm(error));
                self.stage = CloudForkStage::Resume;
            },
        }
        self.capture = Some(capture);
    }

    /// Goes on with the outcome of any other operation.
    pub fn advance(&mut self, outcome: Result<(), SupervisorError>)
        requires
            old(self).inv(),
        ensures
            final(self).inv(),
            cloud_fork_advanced(old(self)@, outcome, final(self)@),
    {
        let ok = outcome.is_ok();
        let failed = self.failure.is_some();
        let next = match self.stage {
            CloudForkStage::PrepareRam => if ok { CloudForkStage::Pause } else { CloudForkStage::Done },
            CloudForkStage::Pause => if ok { CloudForkStage::CaptureState } else { CloudForkStage::Done },
            CloudForkStage::CopyPages => if ok { CloudForkStage::MapSource } else { CloudForkStage::Resume },
            CloudForkStage::MapSource => CloudForkStage::Resume,
            CloudForkStage::Resume => if !failed && ok { CloudForkStage::MapChild } else { CloudForkStage::Done },
            CloudForkStage::MapChild => if ok { CloudForkStage::StartWorker } else { CloudForkStage::Done },
            CloudForkStage::StartWorker => if ok { CloudForkStage::RestoreState } else { CloudForkStage::Done },
            CloudForkStage::RestoreState => if ok { CloudForkStage::BeginTracking } else { CloudForkStage::Done },
            CloudForkStage::BeginTracking => if ok { CloudForkStage::ResumeChild } else { CloudForkStage::Done },
            CloudForkStage::ResumeChild => CloudForkStage::Done,
            _ => {
                return;
            },
        };
        if ok {
            match self.stage {
                CloudForkStage::CopyPages => {
                    let plan = self.plan.take().unwrap();
                    self.actions = self.source.ram.install(&plan);
                },
                CloudForkStage::MapSource => {
                    self.branch = Some(self.source.ram.commit());
                },
                CloudForkStage::Resume => {
                    if !failed {
                        let (child, actions) = self.branch.take().unwrap().materialize();
                        self.actions = actions;
                        self.child = Some(child);
                    }
                },
                _ => {},
            }
        }
        self.stage = next;
        if !failed {
            if let Err(error) = outcome {
                self.failure = Some(error);
            }
        }
    }

    /// The source and the child.
    pub(crate) fn finish(self) -> (r: (KvmVmId, SupervisedVm, Result<SupervisedVm, SupervisorError>))
        requires
            self.inv(),
            self@.stage is Done,
        ensures
            r.0.number() == self@.id,
            r.1@ == self@.source,
            self@.source.ram.wf(),
            match self@.failure {
                Some(e) => r.2 == Err::<SupervisedVm, SupervisorError>(e),
                None => {
                    &&& self@.filesystem is Some
                    &&& r.2 is Ok
                    &&& r.2->Ok_0@ == (GuestView {
                        kind: BackendKind::Cloud,
                        ram: branch_ram(self@.source.ram.pages),
                        filesystem: self@.filesystem->0,
                    })
                },
            },
    {
        if let Some(error) = self.failure {
            return (self.id, self.source, Err(error));
        }
        let ram = self.child.unwrap();
        let filesystem = self.filesystem.unwrap();
        (self.id, self.source, Ok(SupervisedVm { kind: BackendKind::Cloud, ram, filesystem }))
    }
}

/// Whether the devices that were served in this process are handed to another filesystem.
pub open spec fn hands_over(before: Option<Vec<FsConfig>>, filesystem: InProcessFilesystem, after: Option<Vec<FsConfig>>) -> bool {
    match (before, after) {
        (None, None) => true,
        (Some(before), Some(after)) => after@ == retargeted(before@, filesystem.backend_id, filesystem.dax_window_size),
        _ => false,
    }
}

/// A fork, in the way of what runs the source.
#[derive(Debug)]
pub enum GuestFork {
    Raw(VmFork),
    Cloud(CloudVmFork),
}

impl GuestFork {
    /// Whether this is a fork of the guest for which nothing was done yet.
    pub open spec fn begun(self, id: KvmVmId, source: GuestView) -> bool {
        match self {
            GuestFork::Raw(fork) => {
                &&& source.kind is Raw
                &&& fork.inv()
                &&& fork@ == (ForkView {
                    id: id.number(),
                    source,
                    stage: ForkStage::CreateChild,
                    failure: None,
                    prepared: None,
                    actions: Seq::empty(),
                    filesystem: None,
                    child: None,
                })
            },
            GuestFork::Cloud(fork) => {
                &&& source.kind is Cloud
                &&& fork.inv()
                &&& fork@ == (CloudForkView {
                    id: id.number(),
                    source,
                    stage: CloudForkStage::TakeDirtyPages,
                    failure: None,
                    prepared: None,
                    actions: Seq::empty(),
                    capture: None,
                    filesystem: None,
                    branch: None,
                })
            },
        }
    }

    pub(crate) fn begin(id: KvmVmId, source: SupervisedVm) -> (fork: Self)
        requires
            source@.ram.wf(),
        ensures
            fork.begun(id, source@),
    {
        match source.kind {
            BackendKind::Raw => GuestFork::Raw(
                VmFork {
                    id,
                    source,
                    stage: ForkStage::CreateChild,
                    failure: None,
                    plan: None,
                    actions: Vec::new(),
                    filesystem: None,
                    child: None,
                },
            ),
            BackendKind::Cloud => GuestFork::Cloud(
                CloudVmFork {
                    id,
                    source,
                    stage: CloudForkStage::TakeDirtyPages,
                    failure: None,
                    preparation: None,
                    plan: None,
                    actions: Vec::new(),
                    capture: None,
                    filesystem: None,
                    branch: None,
                    child: None,
                },
            ),
        }
    }
}

/// Whether the source of a fork is paused while this operation is at hand.
pub open spec fn fork_paused(stage: ForkStage) -> bool {
    !(stage is CreateChild || stage is Pause || stage is UnregisterChild || stage is Done)
}

/// Whether the source of a fork is paused while this operation is at hand.
pub open spec fn cloud_fork_paused(stage: CloudForkStage) -> bool {
    stage is CaptureState || stage is ForkFilesystem || stage is CopyPages || stage is MapSource || stage is Resume
}

/// How far a fork has come.
pub open spec fn fork_rank(stage: ForkStage) -> int {
    match stage {
        ForkStage::CreateChild => 0,
        ForkStage::Pause => 1,
        ForkStage::ForkFilesystem => 2,
        ForkStage::ReadDirtyLog => 3,
        ForkStage::CopyPages => 4,
        ForkStage::MapSource => 5,
        ForkStage::MapChild => 6,
        ForkStage::RegisterChild => 7,
        ForkStage::Resume => 8,
        ForkStage::UnregisterChild => 9,
        ForkStage::Done => 10,
    }
}

/// How far a fork has come.
pub open spec fn cloud_fork_rank(stage: CloudForkStage) -> int {
    match stage {
        CloudForkStage::TakeDirtyPages => 0,
        CloudForkStage::PrepareRam => 1,
        CloudForkStage::Pause => 2,
        CloudForkStage::CaptureState => 3,
        CloudForkStage::ForkFilesystem => 4,
        CloudForkStage::CopyPages => 5,
        CloudForkStage::MapSource => 6,
        CloudForkStage::Resume => 7,
        CloudForkStage::MapChild => 8,
        CloudForkStage::StartWorker => 9,
        CloudForkStage::RestoreState => 10,
        CloudForkStage::BeginTracking => 11,
        CloudForkStage::ResumeChild => 12,
        CloudForkStage::Done => 13,
    }
}

/// What a fork does to its source: guest and filesystem stay the same, and RAM keeps its size. What
/// fails changes nothing of it.
pub proof fn fork_keeps_the_source(before: ForkView, outcome: Result<(), SupervisorError>, after: ForkView)
    requires
        before.inv(),
        fork_advanced(before, outcome, after),
    ensures
        after.id == before.id,
        after.source.kind == before.source.kind,
        after.source.filesystem == before.source.filesystem,
        after.source.ram.pages.len() == before.source.ram.pages.len(),
        outcome is Err ==> after.source == before.source,
{
}

/// The same holds of a guest with a device model.
pub proof fn cloud_fork_keeps_the_source(before: CloudForkView, outcome: Result<(), SupervisorError>, after: CloudForkView)
    requires
        before.inv(),
        cloud_fork_advanced(before, outcome, after),
    ensures
        after.id == before.id,
        after.source.kind == before.source.kind,
        after.source.filesystem == before.source.filesystem,
        after.source.ram.pages.len() == before.source.ram.pages.len(),
        outcome is Err ==> after.source == before.source,
{
}

/// A fork is one barrier: filesystem and RAM are forked while the source is paused, a paused source
/// is resumed whatever fails, and every fork comes to an end.
pub proof fn fork_is_one_barrier(stage: ForkStage, failed: bool, ok: bool)
    ensures
        ({
            let next = fork_next(stage, failed, ok);
            &&& stage is ForkFilesystem || stage is ReadDirtyLog || stage is CopyPages || stage is MapSource || stage is MapChild
                ==> fork_paused(stage)
            &&& fork_paused(stage) && !(stage is Resume) ==> fork_paused(next)
            &&& !fork_paused(stage) && fork_paused(next) ==> stage is Pause && ok
            &&& !(stage is Done) ==> fork_rank(next) > fork_rank(stage)
        }),
{
}

/// So is a fork of a guest with a device model: what is captured, its filesystem and its RAM are of
/// one pause.
pub proof fn cloud_fork_is_one_barrier(stage: CloudForkStage, failed: bool, ok: bool)
    ensures
        ({
            let next = cloud_fork_next(stage, failed, ok);
            &&& stage is CaptureState || stage is ForkFilesystem || stage is CopyPages || stage is MapSource ==> cloud_fork_paused(stage)
            &&& cloud_fork_paused(stage) && !(stage is Resume) ==> cloud_fork_paused(next)
            &&& !cloud_fork_paused(stage) && cloud_fork_paused(next) ==> stage is Pause && ok
            &&& !(stage is Done) ==> cloud_fork_rank(next) > cloud_fork_rank(stage)
        }),
{
}
} // verus!
