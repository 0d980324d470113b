//! How guests are made.

use vstd::prelude::*;

#[allow(unused_imports)]
use crate::vmm::barrier::first_failure;
use crate::vmm::devices::{add_branch_device, FsConfig, InProcessFilesystem};
#[allow(unused_imports)]
use crate::vmm::devices::{is_branch_device, listed_devices};
#[allow(unused_imports)]
use crate::vmm::error::Error;
use crate::vmm::ram::{KvmGuestRam, RamAction, RamIds, RamView};
#[allow(unused_imports)]
use crate::vmm::ram::{new_ram, new_ram_actions, new_ram_ids, ram_size_fits};
use crate::vmm::supervisor::{BackendKind, SupervisedVm, SupervisorError};
#[allow(unused_imports)]
use crate::vmm::supervisor::GuestView;

verus! {

/// The operations in which a guest without a device model is made.
#[derive(Clone, Copy, Debug, Eq, PartialEq, Structural)]
pub enum CreateStage {
    CreateVm,
    /// Makes the generation of the RAM and maps it.
    MapRam,
    RegisterRam,
    CreateFilesystem,
    UnregisterRam,
    Done,
}

/// The operations in which a guest with a device model is made.
#[derive(Clone, Copy, Debug, Eq, PartialEq, Structural)]
pub enum CloudCreateStage {
    /// Makes the generation of the RAM and maps it.
    MapRam,
    CreateFilesystem,
    StartWorker,
    CreateVm,
    Boot,
    Done,
}

pub open spec fn create_next(stage: CreateStage, ok: bool) -> CreateStage {
    match stage {
        CreateStage::CreateVm => if ok { CreateStage::MapRam } else { CreateStage::Done },
        CreateStage::MapRam => if ok { CreateStage::RegisterRam } else { CreateStage::Done },
        CreateStage::RegisterRam => if ok { CreateStage::CreateFilesystem } else { CreateStage::Done },
        CreateStage::CreateFilesystem => if ok { CreateStage::Done } else { CreateStage::UnregisterRam },
        CreateStage::UnregisterRam => CreateStage::Done,
        CreateStage::Done => CreateStage::Done,
    }
}

pub open spec fn cloud_create_next(stage: CloudCreateStage, ok: bool) -> CloudCreateStage {
    if !ok {
        CloudCreateStage::Done
    } else {
        match stage {
            CloudCreateStage::MapRam => CloudCreateStage::CreateFilesystem,
            CloudCreateStage::CreateFilesystem => CloudCreateStage::StartWorker,
            CloudCreateStage::StartWorker => CloudCreateStage::CreateVm,
            CloudCreateStage::CreateVm => CloudCreateStage::Boot,
            CloudCreateStage::Boot => CloudCreateStage::Done,
            CloudCreateStage::Done => CloudCreateStage::Done,
        }
    }
}

/// Where the making of a guest without a device model stands.
#[verifier::ext_equal]
pub struct CreationView {
    pub stage: CreateStage,
    pub failure: Option<SupervisorError>,
    pub ram: Option<RamView>,
    /// What has to be done to have the RAM.
    pub actions: Seq<RamAction>,
    pub filesystem: Option<InProcessFilesystem>,
}

/// What a creation is once the machine was made and its RAM laid out, or could not be.
pub open spec fn ram_made(
    before: CreationView,
    size: usize,
    outcome: Result<(), SupervisorError>,
    after: CreationView,
    had: RamIds,
    left: RamIds,
) -> bool {
    match outcome {
        Ok(()) => if ram_size_fits(size) {
            &&& left == new_ram_ids(size, had)
            &&& after == (CreationView {
                stage: CreateStage::MapRam,
                ram: Some(new_ram(size, had)),
                actions: new_ram_actions(size, had),
                ..before
            })
        } else {
            &&& left == had
            &&& after == (CreationView {
                stage: CreateStage::Done,
                failure: Some(SupervisorError::Vmm(Error::InvalidRamSize(size))),
                ..before
            })
        },
        Err(e) => {
            &&& left == had
            &&& after == (CreationView { stage: CreateStage::Done, failure: Some(e), ..before })
        },
    }
}

/// What a creation is once the filesystem was made, or could not be.
pub open spec fn filesystem_made(before: CreationView, outcome: Result<InProcessFilesystem, SupervisorError>, after: CreationView) -> bool {
    after == (match outcome {
        Ok(filesystem) => CreationView { stage: CreateStage::Done, filesystem: Some(filesystem), ..before },
        Err(e) => CreationView { stage: CreateStage::UnregisterRam, failure: Some(e), ..before },
    })
}

/// What a creation is once any other operation succeeded or failed.
pub open spec fn create_advanced(before: CreationView, outcome: Result<(), SupervisorError>, after: CreationView) -> bool {
    after == (if before.stage is CreateVm || before.stage is CreateFilesystem || before.stage is Done {
        before
    } else {
        CreationView {
            stage: create_next(before.stage, outcome is Ok),
            failure: first_failure(before.failure, !(before.stage is UnregisterRam), outcome),
            ..before
        }
    })
}

/// A guest that is being made.
#[derive(Debug)]
pub struct VmCreation {
    size: usize,
    stage: CreateStage,
    failure: Option<SupervisorError>,
    ram: Option<KvmGuestRam>,
    actions: Vec<RamAction>,
    filesystem: Option<InProcessFilesystem>,
}

impl View for VmCreation {
    type V = CreationView;

    closed spec fn view(&self) -> CreationView {
        CreationView {
            stage: self.stage,
            failure: self.failure,
            ram: match self.ram {
                Some(ram) => Some(ram@),
                None => None,
            },
            actions: self.actions@,
            filesystem: self.filesystem,
        }
    }
}

impl VmCreation {
    /// How much memory the guest is to have.
    pub closed spec fn size(self) -> usize {
        self.size
    }

    /// Whether what was made so far is there.
    pub open spec fn inv(self) -> bool {
        &&& self@.ram matches Some(ram) ==> ram.wf()
        &&& self@.stage is MapRam || self@.stage is RegisterRam || self@.stage is CreateFilesystem ==> self@.ram is Some
        &&& self@.failure is Some ==> self@.stage is UnregisterRam || self@.stage is Done
        &&& self@.stage is UnregisterRam ==> self@.failure is Some
        &&& self@.stage is Done && self@.failure is None ==> self@.ram is Some && self@.filesystem is Some
    }

    pub(crate) fn begin(size: usize) -> (creation: Self)
        ensures
            creation.size() == size,
            creation@ == (CreationView {
                stage: CreateStage::CreateVm,
                failure: None,
                ram: None,
                actions: Seq::empty(),
                filesystem: None,
            }),
    {
        VmCreation { size, stage: CreateStage::CreateVm, failure: None, ram: None, actions: Vec::new(), filesystem: None }
    }

    /// The operation at hand.
    pub fn stage(&self) -> (stage: CreateStage)
        ensures
            stage == self@.stage,
    {
        self.stage
    }

    /// The RAM of the guest, as soon as it has any.
    pub fn ram(&self) -> (ram: Option<&KvmGuestRam>)
        ensures
            match ram {
                Some(ram) => self@.ram == Some(ram@),
                None => self@.ram is None,
            },
    {
        self.ram.as_ref()
    }

    /// What has to be done to have the RAM.
    pub fn actions(&self) -> (actions: &Vec<RamAction>)
        ensures
            actions@ == self@.actions,
    {
        &self.actions
    }

    /// Goes on once the hypervisor was asked for a guest.
    pub fn vm_created(&mut self, outcome: Result<(), SupervisorError>, ids: &mut RamIds)
        requires
            old(self).inv(),
            old(self)@.stage is CreateVm,
            old(ids).next_page + old(self).size() / 4096 <= u64::MAX,
            old(ids).next_generation < u64::MAX,
        ensures
            final(self).inv(),
            final(self).size() == old(self).size(),
            ram_made(old(self)@, old(self).size(), outcome, final(self)@, *old(ids), *final(ids)),
    {
        if let Err(error) = outcome {
            self.stage = CreateStage::Done;
            self.failure = Some(error);
            return;
        }
        match KvmGuestRam::new(self.size, ids) {
            Ok((ram, actions)) => {
                self.ram = Some(ram);
                self.actions = actions;
                self.stage = CreateStage::MapRam;
            },
            Err(error) => {
                self.failure = Some(SupervisorError::Vmm(error));
                self.stage = CreateStage::Done;
            },
        }
    }

    /// Goes on once the filesystem of the guest was asked for.
    pub fn filesystem_created(&mut self, outcome: Result<InProcessFilesystem, SupervisorError>)
        requires
            old(self).inv(),
            old(self)@.stage is CreateFilesystem,
        ensures
            final(self).inv(),
            final(self).size() == old(self).size(),
            filesystem_made(old(self)@, outcome, final(self)@),
    {
        match outcome {
            Ok(filesystem) => {
                self.filesystem = Some(filesystem);
                self.stage = CreateStage::Done;
            },
            Err(error) => {
                self.failure = Some(error);
                self.stage = CreateStage::UnregisterRam;
            },
        }
    }

    /// Goes on with the outcome of any other operation.
    pub fn advance(&mut self, outcome: Result<(), SupervisorError>)
        requires
            old(self).inv(),
        ensures
            final(self).inv(),
            final(self).size() == old(self).size(),
            create_advanced(old(self)@, outcome, final(self)@),
    {
        let ok = outcome.is_ok();
        let mut counted = true;
        self.stage = match self.stage {
            CreateStage::MapRam => if ok { CreateStage::RegisterRam } else { CreateStage::Done },
            CreateStage::RegisterRam => if ok { CreateStage::CreateFilesystem } else { CreateStage::Done },
            CreateStage::UnregisterRam => {
                counted = false;
                CreateStage::Done
            },
            _ => {
                return;
            },
        };
        if self.failure.is_none() && counted {
            if let Err(error) = outcome {
                self.failure = Some(error);
            }
        }
    }

    /// The guest that was made.
    pub(crate) fn finish(self) -> (r: Result<SupervisedVm, SupervisorError>)
        requires
            self.inv(),
            self@.stage is Done,
        ensures
            match self@.failure {
                Some(e) => r == Err::<SupervisedVm, SupervisorError>(e),
                None => {
                    &&& self@.ram is Some && self@.filesystem is Some
                    &&& r is Ok
                    &&& r->Ok_0@ == (GuestView { kind: BackendKind::Raw, ram: self@.ram->0, filesystem: self@.filesystem->0 })
                },
            },
    {
        if let Some(error) = self.failure {
            return Err(error);
        }
        let ram = self.ram.unwrap();
        let filesystem = self.filesystem.unwrap();
        Ok(SupervisedVm { kind: BackendKind::Raw, ram, filesystem })
    }
}

/// Where the making of a guest with a device model stands.
#[verifier::ext_equal]
pub struct CloudCreationView {
    pub stage: CloudCreateStage,
    pub failure: Option<SupervisorError>,
    pub ram: RamView,
    /// What has to be done to have the RAM.
    pub actions: Seq<RamAction>,
    /// The filesystem devices of the configuration, if it has any.
    pub devices: Option<Vec<FsConfig>>,
    pub filesystem: Option<InProcessFilesystem>,
}

/// What a creation is once the filesystem was made and its device added, or could not be.
pub open spec fn cloud_filesystem_made(before: CloudCreationView, outcome: Result<InProcessFilesystem, SupervisorError>, after: CloudCreationView) -> bool {
    match outcome {
        Ok(filesystem) => {
            let devices = listed_devices(after.devices);
            &&& after == (CloudCreationView {
                stage: CloudCreateStage::StartWorker,
                devices: after.devices,
                filesystem: Some(filesystem),
                ..before
            })
            &&& after.devices is Some
            &&& devices.len() == listed_devices(before.devices).len() + 1
            &&& devices.drop_last() == listed_devices(before.devices)
            &&& is_branch_device(devices.last(), filesystem.backend_id, filesystem.dax_window_size)
        },
        Err(e) => after == (CloudCreationView { stage: CloudCreateStage::Done, failure: Some(e), ..before }),
    }
}

/// What a creation is once any other operation succeeded or failed.
pub open spec fn cloud_create_advanced(before: CloudCreationView, outcome: Result<(), SupervisorError>, after: CloudCreationView) -> bool {
    after == (if before.stage is CreateFilesystem || before.stage is Done {
        before
    } else {
        CloudCreationView {
            stage: cloud_create_next(before.stage, outcome is Ok),
            failure: first_failure(before.failure, true, outcome),
            ..before
        }
    })
}

/// A guest with a device model that is being made.
#[derive(Debug)]
pub struct CloudVmCreation {
    stage: CloudCreateStage,
    failure: Option<SupervisorError>,
    ram: KvmGuestRam,
    actions: Vec<RamAction>,
    devices: Option<Vec<FsConfig>>,
    filesystem: Option<InProcessFilesystem>,
}

impl View for CloudVmCreation {
    type V = CloudCreationView;

    closed spec fn view(&self) -> CloudCreationView {
        CloudCreationView {
            stage: self.stage,
            failure: self.failure,
            ram: self.ram@,
            actions: self.actions@,
            devices: self.devices,
            filesystem: self.filesystem,
        }
    }
}

impl CloudVmCreation {
    /// Whether what was made so far is there.
    pub open spec fn inv(self) -> bool {
        &&& self@.ram.wf()
        &&& self@.failure is Some ==> self@.stage is Done
        &&& !(self@.stage is MapRam || self@.stage is CreateFilesystem) && self@.failure is None ==> self@.filesystem is Some
    }

    pub(crate) fn begin(ram: KvmGuestRam, actions: Vec<RamAction>, devices: Option<Vec<FsConfig>>) -> (creation: Self)
        requires
            ram.wf(),
        ensures
            creation.inv(),
            creation@ == (CloudCreationView {
                stage: CloudCreateStage::MapRam,
                failure: None,
                ram: ram@,
                actions: actions@,
                devices,
                filesystem: None,
            }),
    {
        CloudVmCreation { stage: CloudCreateStage::MapRam, failure: None, ram, actions, devices, filesystem: None }
    }

    /// The operation at hand.
    pub fn stage(&self) -> (stage: CloudCreateStage)
        ensures
            stage == self@.stage,
    {
        self.stage
    }

    /// The RAM of the guest.
    pub fn ram(&self) -> (ram: &KvmGuestRam)
        ensures
            ram@ == self@.ram,
    {
        &self.ram
    }

    /// What has to be done to have the RAM.
    pub fn actions(&self) -> (actions: &Vec<RamAction>)
        ensures
            actions@ == self@.actions,
    {
        &self.actions
    }

    /// The filesystem devices that the guest is configured with.
    pub fn devices(&self) -> (devices: &Option<Vec<FsConfig>>)
        ensures
            *devices == self@.devices,
    {
        &self.devices
    }

    /// Goes on once the filesystem of the guest was asked for. The guest finds it under a device of
    /// its own, behind those that it is configured with.
    pub fn filesystem_created(&mut self, outcome: Result<InProcessFilesystem, SupervisorError>)
        requires
            old(self).inv(),
            old(self)@.stage is CreateFilesystem,
        ensures
            final(self).inv(),
            cloud_filesystem_made(old(self)@, outcome, final(self)@),
    {
        match outcome {
            Ok(filesystem) => {
                let devices = self.devices.take();
                self.devices = Some(add_branch_device(devices, filesystem));
                self.filesystem = Some(filesystem);
                self.stage = CloudCreateStage::StartWorker;
            },
            Err(error) => {
                self.failure = Some(error);
                self.stage = CloudCreateStage::Done;
            },
        }
    }

    /// Goes on with the outcome of any other operation.
    pub fn advance(&mut self, outcome: Result<(), SupervisorError>)
        requires
            old(self).inv(),
        ensures
            final(self).inv(),
            cloud_create_advanced(old(self)@, outcome, final(self)@),
    {
        let next = match self.stage {
            CloudCreateStage::MapRam => CloudCreateStage::CreateFilesystem,
            CloudCreateStage::StartWorker => CloudCreateStage::CreateVm,
            CloudCreateStage::CreateVm => CloudCreateStage::Boot,
            CloudCreateStage::Boot => CloudCreateStage::Done,
            _ => {
                return;
            },
        };
        match outcome {
            Ok(()) => {
                self.stage = next;
            },
            Err(error) => {
                self.failure = Some(error);
                self.stage = CloudCreateStage::Done;
            },
        }
    }

    /// The guest that was made.
    pub(crate) fn finish(self) -> (r: Result<SupervisedVm, SupervisorError>)
        requires
            self.inv(),
            self@.stage is Done,
        ensures
            match self@.failure {
                Some(e) => r == Err::<SupervisedVm, SupervisorError>(e),
                None => {
                    &&& self@.filesystem is Some
                    &&& r is Ok
                    &&& r->Ok_0@ == (GuestView { kind: BackendKind::Cloud, ram: self@.ram, filesystem: self@.filesystem->0 })
                },
            },
    {
        if let Some(error) = self.failure {
            return Err(error);
        }
        let filesystem = self.filesystem.unwrap();
        Ok(SupervisedVm { kind: BackendKind::Cloud, ram: self.ram, filesystem })
    }
}

} // verus!
