//! How a fork forest is saved: every guest is paused, saved and resumed before anything is
//! published.

use vstd::prelude::*;

#[allow(unused_imports)]
use crate::ordered::ascending;
#[allow(unused_imports)]
use crate::vmm::barrier::first_failure;
use crate::vmm::devices::{in_process_filesystems, FsConfig};
#[allow(unused_imports)]
use crate::vmm::devices::served_in_process;
use crate::vmm::opening::{DurableBackend, ForestManifest, VmManifest};
use crate::vmm::supervisor::{BackendKind, KvmSupervisor, KvmVmId, SupervisorError, MANIFEST_VERSION};

verus! {

/// The operations in which a forest is saved; the number is a guest's place among the guests.
#[derive(Clone, Copy, Debug, Eq, PartialEq, Structural)]
pub enum CheckpointStage {
    Pause(usize),
    /// Resumes a guest after another one could not be paused.
    Unwind(usize),
    /// Captures the device state of a guest.
    Capture(usize),
    SealRam(usize),
    SaveFilesystem(usize),
    SaveRam(usize),
    Resume(usize),
    /// Puts the manifest in place.
    Publish,
    Done,
}

/// The first operation that saves a guest.
pub open spec fn save_first(kinds: Seq<BackendKind>, i: int) -> CheckpointStage {
    if i >= kinds.len() {
        CheckpointStage::Resume((kinds.len() - 1) as usize)
    } else if kinds[i] is Cloud {
        CheckpointStage::Capture(i as usize)
    } else {
        CheckpointStage::SealRam(i as usize)
    }
}

pub open spec fn checkpoint_first(kinds: Seq<BackendKind>) -> CheckpointStage {
    if kinds.len() == 0 {
        CheckpointStage::Publish
    } else {
        CheckpointStage::Pause(0)
    }
}

/// The operation after `stage`; `failed` says whether an earlier one has failed, `ok` whether this
/// one succeeded.
pub open spec fn checkpoint_next(kinds: Seq<BackendKind>, stage: CheckpointStage, failed: bool, ok: bool) -> CheckpointStage {
    let resume = CheckpointStage::Resume((kinds.len() - 1) as usize);
    match stage {
        CheckpointStage::Pause(i) => if ok {
            if i + 1 < kinds.len() {
                CheckpointStage::Pause((i + 1) as usize)
            } else {
                save_first(kinds, 0)
            }
        } else if i == 0 {
            CheckpointStage::Done
        } else {
            CheckpointStage::Unwind((i - 1) as usize)
        },
        CheckpointStage::Unwind(i) => if i == 0 {
            CheckpointStage::Done
        } else {
            CheckpointStage::Unwind((i - 1) as usize)
        },
        CheckpointStage::Capture(i) => if ok { CheckpointStage::SealRam(i) } else { resume },
        CheckpointStage::SealRam(i) => if ok { CheckpointStage::SaveFilesystem(i) } else { resume },
        CheckpointStage::SaveFilesystem(i) => if ok { CheckpointStage::SaveRam(i) } else { resume },
        CheckpointStage::SaveRam(i) => if ok { save_first(kinds, i + 1) } else { resume },
        CheckpointStage::Resume(i) => if i > 0 {
            CheckpointStage::Resume((i - 1) as usize)
        } else if !failed && ok {
            CheckpointStage::Publish
        } else {
            CheckpointStage::Done
        },
        CheckpointStage::Publish => CheckpointStage::Done,
        CheckpointStage::Done => CheckpointStage::Done,
    }
}

/// Whether an operation is one on a guest that there is.
pub open spec fn stage_fits(n: nat, stage: CheckpointStage) -> bool {
    match stage {
        CheckpointStage::Pause(i) => i < n,
        CheckpointStage::Unwind(i) => i < n,
        CheckpointStage::Capture(i) => i < n,
        CheckpointStage::SealRam(i) => i < n,
        CheckpointStage::SaveFilesystem(i) => i < n,
        CheckpointStage::SaveRam(i) => i < n,
        CheckpointStage::Resume(i) => i < n,
        CheckpointStage::Publish => true,
        CheckpointStage::Done => true,
    }
}

/// The places of the guests that are paused while an operation is at hand.
pub open spec fn paused_guests(n: nat, stage: CheckpointStage) -> Set<int> {
    let end = match stage {
        CheckpointStage::Pause(i) => i as int,
        CheckpointStage::Unwind(i) => i + 1,
        CheckpointStage::Capture(_) => n as int,
        CheckpointStage::SealRam(_) => n as int,
        CheckpointStage::SaveFilesystem(_) => n as int,
        CheckpointStage::SaveRam(_) => n as int,
        CheckpointStage::Resume(i) => i + 1,
        CheckpointStage::Publish => 0,
        CheckpointStage::Done => 0,
    };
    Set::new(|i: int| 0 <= i < end)
}

/// How many operations can still come.
pub open spec fn checkpoint_rest(n: nat, stage: CheckpointStage) -> int {
    match stage {
        CheckpointStage::Pause(i) => 2 + n + 4 * n + (n - i),
        CheckpointStage::Unwind(i) => 1 + i,
        CheckpointStage::Capture(i) => 2 + n + 4 * (n - i),
        CheckpointStage::SealRam(i) => 1 + n + 4 * (n - i),
        CheckpointStage::SaveFilesystem(i) => n + 4 * (n - i),
        CheckpointStage::SaveRam(i) => n - 1 + 4 * (n - i),
        CheckpointStage::Resume(i) => 2 + i,
        CheckpointStage::Publish => 1,
        CheckpointStage::Done => 0,
    }
}

/// What was captured of a guest.
#[derive(Debug)]
pub struct CapturedGuest {
    /// The lineage that its filesystem belongs to.
    pub lineage: u64,
    /// The filesystem devices, where a cloud hypervisor runs the guest and its configuration has any.
    pub devices: Option<Vec<FsConfig>>,
}

/// Whether `vm` is what is saved of a guest.
pub open spec fn saves(id: KvmVmId, kind: BackendKind, captured: CapturedGuest, vm: VmManifest) -> bool {
    &&& vm.id == id.number()
    &&& vm.lineage == captured.lineage
    &&& match (kind, vm.backend) {
        (BackendKind::Raw, DurableBackend::Raw) => true,
        (BackendKind::Cloud, DurableBackend::Cloud { devices, in_process_filesystems }) => {
            &&& devices == captured.devices
            &&& in_process_filesystems@ == (match devices {
                Some(devices) => served_in_process(devices@, devices@.len() as int),
                None => Seq::empty(),
            })
        },
        _ => false,
    }
}

/// A forest that is being saved.
#[derive(Debug)]
pub struct ForestCheckpoint {
    ids: Vec<KvmVmId>,
    kinds: Vec<BackendKind>,
    next_vm: u64,
    next_lineage: u64,
    stage: CheckpointStage,
    failure: Option<SupervisorError>,
}

impl ForestCheckpoint {
    /// The guests, in order.
    pub closed spec fn spec_ids(self) -> Seq<KvmVmId> {
        self.ids@
    }

    /// What runs each of them.
    pub closed spec fn kinds(self) -> Seq<BackendKind> {
        self.kinds@
    }

    pub closed spec fn numbers(self) -> (u64, u64) {
        (self.next_vm, self.next_lineage)
    }

    pub closed spec fn spec_stage(self) -> CheckpointStage {
        self.stage
    }

    pub closed spec fn failure(self) -> Option<SupervisorError> {
        self.failure
    }

    #[verifier::type_invariant]
    spec fn valid(self) -> bool {
        &&& self.ids@.len() == self.kinds@.len()
        &&& stage_fits(self.kinds@.len(), self.stage)
    }

    /// The operation at hand.
    pub fn stage(&self) -> (stage: CheckpointStage)
        ensures
            stage == self.spec_stage(),
            self.spec_ids().len() == self.kinds().len(),
            stage_fits(self.kinds().len(), stage),
    {
        proof {
            use_type_invariant(self);
        }
        self.stage
    }

    /// The guests, in order.
    pub fn ids(&self) -> (ids: &Vec<KvmVmId>)
        ensures
            ids@ == self.spec_ids(),
    {
        &self.ids
    }

    /// The next guest and the next lineage that the manifest is to hold.
    pub fn next_numbers(&self) -> (numbers: (u64, u64))
        ensures
            numbers == self.numbers(),
    {
        (self.next_vm, self.next_lineage)
    }

    fn save_first(&self, i: usize) -> (stage: CheckpointStage)
        requires
            self.kinds@.len() > 0,
            i <= self.kinds@.len(),
        ensures
            stage == save_first(self.kinds@, i as int),
    {
        if i >= self.kinds.len() {
            CheckpointStage::Resume(self.kinds.len() - 1)
        } else {
            match self.kinds[i] {
                BackendKind::Cloud => CheckpointStage::Capture(i),
                BackendKind::Raw => CheckpointStage::SealRam(i),
            }
        }
    }

    /// Goes on with the outcome of the operation at hand.
    pub fn advance(&mut self, outcome: Result<(), SupervisorError>)
        ensures
            final(self).spec_ids() == old(self).spec_ids(),
            final(self).kinds() == old(self).kinds(),
            final(self).numbers() == old(self).numbers(),
            final(self).spec_stage() == checkpoint_next(
                old(self).kinds(),
                old(self).spec_stage(),
                old(self).failure() is Some,
                outcome is Ok,
            ),
            final(self).failure() == first_failure(
                old(self).failure(),
                !(old(self).spec_stage() is Unwind || old(self).spec_stage() is Done),
                outcome,
            ),
    {
        proof {
            use_type_invariant(&*self);
        }
        let ok = outcome.is_ok();
        let failed = self.failure.is_some();
        let n: usize = self.kinds.len();
        let counted = match self.stage {
            CheckpointStage::Unwind(_) => false,
            CheckpointStage::Done => false,
            _ => true,
        };
        let next = match self.stage {
            CheckpointStage::Pause(i) => if ok {
                if i + 1 < n {
                    CheckpointStage::Pause(i + 1)
                } else {
                    self.save_first(0)
                }
            } else if i == 0 {
                CheckpointStage::Done
            } else {
                CheckpointStage::Unwind(i - 1)
            },
            CheckpointStage::Unwind(i) => if i == 0 {
                CheckpointStage::Done
            } else {
                CheckpointStage::Unwind(i - 1)
            },
            CheckpointStage::Capture(i) => if ok {
                CheckpointStage::SealRam(i)
            } else {
                CheckpointStage::Resume(n - 1)
            },
            CheckpointStage::SealRam(i) => if ok {
                CheckpointStage::SaveFilesystem(i)
            } else {
                CheckpointStage::Resume(n - 1)
            },
            CheckpointStage::SaveFilesystem(i) => if ok {
                CheckpointStage::SaveRam(i)
            } else {
                CheckpointStage::Resume(n - 1)
            },
            CheckpointStage::SaveRam(i) => if ok {
                self.save_first(i + 1)
            } else {
                CheckpointStage::Resume(n - 1)
            },
            CheckpointStage::Resume(i) => if i > 0 {
                CheckpointStage::Resume(i - 1)
            } else if !failed && ok {
                CheckpointStage::Publish
            } else {
                CheckpointStage::Done
            },
            CheckpointStage::Publish => CheckpointStage::Done,
            CheckpointStage::Done => CheckpointStage::Done,
        };
        self.stage = next;
        if !failed && counted {
            if let Err(error) = outcome {
                self.failure = Some(error);
            }
        }
    }

    /// What is saved of the guest at a place.
    pub fn save_guest(&self, place: usize, captured: CapturedGuest) -> (vm: VmManifest)
        requires
            place < self.kinds().len(),
        ensures
            saves(self.spec_ids()[place as int], self.kinds()[place as int], captured, vm),
    {
        proof {
            use_type_invariant(self);
        }
        let backend = match self.kinds[place] {
            BackendKind::Raw => DurableBackend::Raw,
            BackendKind::Cloud => {
                let in_process_filesystems = match &captured.devices {
                    Some(devices) => in_process_filesystems(devices),
                    None => Vec::new(),
                };
                DurableBackend::Cloud { devices: captured.devices, in_process_filesystems }
            },
        };
        VmManifest { id: self.ids[place].into_raw(), lineage: captured.lineage, backend }
    }

    /// The manifest of the forest, given what was captured of its guests, in their order.
    pub fn manifest(&self, captured: Vec<CapturedGuest>) -> (manifest: ForestManifest)
        requires
            captured@.len() == self.spec_ids().len(),
        ensures
            manifest.version == MANIFEST_VERSION,
            (manifest.next_vm, manifest.next_lineage) == self.numbers(),
            manifest.vms@.len() == self.spec_ids().len(),
            forall|i: int| 0 <= i < manifest.vms@.len() ==> saves(self.spec_ids()[i], self.kinds()[i], captured@[i], #[trigger] manifest.vms@[i]),
    {
        proof {
            use_type_invariant(self);
        }
        let n: usize = captured.len();
        let mut rest = captured;
        let mut vms: Vec<VmManifest> = Vec::new();
        let mut i: usize = 0;
        while i < n
            invariant
                i <= n,
                n == captured@.len(),
                n == self.spec_ids().len(),
                n == self.kinds().len(),
                rest@ == captured@.skip(i as int),
                vms@.len() == i,
                forall|j: int| 0 <= j < i ==> saves(self.spec_ids()[j], self.kinds()[j], captured@[j], #[trigger] vms@[j]),
            decreases n - i,
        {
            let guest = rest.remove(0);
            assert(guest == captured@[i as int]);
            assert(rest@ =~= captured@.skip(i + 1));
            vms.push(self.save_guest(i, guest));
            i += 1;
        }
        ForestManifest { version: MANIFEST_VERSION, next_vm: self.next_vm, next_lineage: self.next_lineage, vms }
    }

    /// What the checkpoint has come to.
    pub fn finish(self) -> (r: Result<(), SupervisorError>)
        requires
            self.spec_stage() is Done,
        ensures
            match self.failure() {
                Some(e) => r == Err::<(), SupervisorError>(e),
                None => r == Ok::<(), SupervisorError>(()),
            },
    {
        match self.failure {
            Some(error) => Err(error),
            None => Ok(()),
        }
    }
}

impl KvmSupervisor {
    /// Begins to save the forest; only one with storage can be saved.
    pub fn checkpoint(&self) -> (r: Result<ForestCheckpoint, SupervisorError>)
        ensures
            match r {
                Ok(checkpoint) => {
                    let numbers = checkpoint.spec_ids().map_values(|id: KvmVmId| id.number());
                    &&& self@.durable
                    &&& ascending::<KvmVmId>(numbers)
                    &&& forall|n: u64| #[trigger] self@.vms.contains_key(n) <==> numbers.contains(n)
                    &&& checkpoint.kinds() == numbers.map_values(|n: u64| self@.vms[n].kind)
                    &&& checkpoint.numbers() == (self@.next_vm, self@.next_lineage)
                    &&& checkpoint.spec_stage() == checkpoint_first(checkpoint.kinds())
                    &&& checkpoint.failure() is None
                },
                Err(e) => e is DurabilityRequired && !self@.durable,
            },
    {
        if !self.is_durable() {
            return Err(SupervisorError::DurabilityRequired);
        }
        let ids = self.vm_ids();
        let ghost numbers = ids@.map_values(|id: KvmVmId| id.number());
        let mut kinds: Vec<BackendKind> = Vec::new();
        let mut i: usize = 0;
        while i < ids.len()
            invariant
                i <= ids@.len(),
                kinds@.len() == i,
                numbers == ids@.map_values(|id: KvmVmId| id.number()),
                forall|n: u64| #[trigger] self@.vms.contains_key(n) <==> numbers.contains(n),
                forall|j: int| 0 <= j < i ==> #[trigger] kinds@[j] == self@.vms[ids@[j].number()].kind,
            decreases ids@.len() - i,
        {
            assert(numbers[i as int] == ids@[i as int].number());
            assert(numbers.contains(numbers[i as int]));
            match self.kind(ids[i]) {
                Ok(kind) => {
                    kinds.push(kind);
                },
                Err(error) => {
                    assert(false);
                    return Err(error);
                },
            }
            i += 1;
        }
        assert(kinds@ =~= numbers.map_values(|n: u64| self@.vms[n].kind));
        let stage = if kinds.len() == 0 { CheckpointStage::Publish } else { CheckpointStage::Pause(0) };
        let (next_vm, next_lineage) = self.next_numbers();
        Ok(ForestCheckpoint { ids, kinds, next_vm, next_lineage, stage, failure: None })
    }
}

/// Every guest that a checkpoint pauses is resumed again, whatever fails. While a guest is saved,
/// all guests are paused. Nothing is published before all guests run again, nor after any failure.
/// Every checkpoint comes to an end.
pub proof fn checkpoint_resumes_every_guest(kinds: Seq<BackendKind>, stage: CheckpointStage, failed: bool, ok: bool)
    requires
        kinds.len() <= usize::MAX,
        stage_fits(kinds.len(), stage),
    ensures
        ({
            let n = kinds.len();
            let next = checkpoint_next(kinds, stage, failed, ok);
            let paused = paused_guests(n, stage);
            &&& stage_fits(n, next)
            &&& paused_guests(n, next) == (match stage {
                CheckpointStage::Pause(i) => if ok { paused.insert(i as int) } else { paused },
                CheckpointStage::Unwind(i) => paused.remove(i as int),
                CheckpointStage::Resume(i) => paused.remove(i as int),
                _ => paused,
            })
            &&& stage is Capture || stage is SealRam || stage is SaveFilesystem || stage is SaveRam ==> paused == Set::new(
                |i: int| 0 <= i < n,
            )
            &&& next is Done || next is Publish ==> paused_guests(n, next) == Set::<int>::empty()
            &&& next is Publish ==> !failed && ok
            &&& !(stage is Done) ==> 0 <= checkpoint_rest(n, next) < checkpoint_rest(n, stage)
        }),
{
    let n = kinds.len();
    let next = checkpoint_next(kinds, stage, failed, ok);
    let paused = paused_guests(n, stage);
    assert(paused_guests(n, next) =~= (match stage {
        CheckpointStage::Pause(i) => if ok { paused.insert(i as int) } else { paused },
        CheckpointStage::Unwind(i) => paused.remove(i as int),
        CheckpointStage::Resume(i) => paused.remove(i as int),
        _ => paused,
    }));
    if next is Done || next is Publish {
        assert(paused_guests(n, next) =~= Set::<int>::empty());
    }
}

} // verus!
