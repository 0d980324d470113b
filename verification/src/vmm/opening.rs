//! How a saved fork forest is opened again.

use vstd::prelude::*;

use crate::io::IoError;
use crate::ordered::{OrdMap, OrdSet};
#[allow(unused_imports)]
use crate::ordered::ascending;
use crate::vmm::devices::{attach_filesystems, FsConfig, InProcessFilesystem};
#[allow(unused_imports)]
use crate::vmm::devices::{places_fit, served_by};
use crate::vmm::ram::{KvmGuestRam, RamView};
use crate::vmm::supervisor::{BackendKind, KvmSupervisor, KvmVmId, SupervisedVm, SupervisorError, MANIFEST_VERSION};
#[allow(unused_imports)]
use crate::vmm::supervisor::{GuestView, KvmView};

verus! {

/// What runs a saved guest.
#[derive(Debug)]
pub enum DurableBackend {
    Raw,
    Cloud {
        /// The filesystem devices, where the configuration has any.
        devices: Option<Vec<FsConfig>>,
        /// The places of those that were served in the saving process.
        in_process_filesystems: Vec<usize>,
    },
}

/// A saved guest.
#[derive(Debug)]
pub struct VmManifest {
    pub id: u64,
    /// The lineage that its filesystem belongs to.
    pub lineage: u64,
    pub backend: DurableBackend,
}

/// A saved forest.
#[derive(Debug)]
pub struct ForestManifest {
    pub version: u32,
    pub next_vm: u64,
    pub next_lineage: u64,
    pub vms: Vec<VmManifest>,
}

/// The operations in which a forest is opened; the number is a place among the lineages, or among
/// the guests.
#[derive(Clone, Copy, Debug, Eq, PartialEq, Structural)]
pub enum OpenStage {
    CreateHypervisor,
    RestoreRams,
    RestoreLineage(usize),
    CreateVm(usize),
    RegisterRam(usize),
    StartWorker(usize),
    RestoreState(usize),
    BeginTracking(usize),
    ResumeVm(usize),
    Done,
}

/// The places, among the first `n`, of the guests whose filesystem belongs to a lineage.
pub open spec fn members_of(lineages: Seq<u64>, lineage: u64, n: int) -> Seq<usize>
    decreases n,
{
    if n <= 0 {
        Seq::empty()
    } else if lineages[n - 1] == lineage {
        members_of(lineages, lineage, n - 1).push((n - 1) as usize)
    } else {
        members_of(lineages, lineage, n - 1)
    }
}

/// The lineages of the guests.
pub open spec fn lineages_of(vms: Seq<VmManifest>) -> Seq<u64> {
    vms.map_values(|vm: VmManifest| vm.lineage)
}

/// Whether a list holds each lineage of the guests once, in order.
pub open spec fn lists_lineages(listed: Seq<u64>, lineages: Seq<u64>) -> bool {
    &&& ascending::<u64>(listed)
    &&& forall|l: u64| #[trigger] listed.contains(l) <==> lineages.contains(l)
}

/// The filesystems of the guests after the first `k` that were read back have found their guests.
pub open spec fn placed(
    filesystems: Seq<Option<InProcessFilesystem>>,
    members: Seq<usize>,
    restored: Seq<InProcessFilesystem>,
    k: int,
) -> Seq<Option<InProcessFilesystem>>
    decreases k,
{
    if k <= 0 {
        filesystems
    } else {
        placed(filesystems, members, restored, k - 1).update(members[k - 1] as int, Some(restored[k - 1]))
    }
}

pub open spec fn least(a: nat, b: nat) -> nat {
    if a <= b { a } else { b }
}

/// The guests, after the first `n` of them were opened.
pub open spec fn guests(v: OpeningView, n: int) -> Map<u64, GuestView>
    decreases n,
{
    if n <= 0 {
        Map::empty()
    } else {
        guests(v, n - 1).insert(v.vms[n - 1].id, v.guest(n - 1))
    }
}

pub open spec fn kind_of(backend: DurableBackend) -> BackendKind {
    match backend {
        DurableBackend::Raw => BackendKind::Raw,
        DurableBackend::Cloud { .. } => BackendKind::Cloud,
    }
}

/// Where the opening stands.
#[verifier::ext_equal]
pub struct OpeningView {
    pub vms: Seq<VmManifest>,
    /// The RAM of each guest, once it was read back.
    pub rams: Seq<RamView>,
    /// The lineages to be read back.
    pub lineages: Seq<u64>,
    /// The filesystem of each guest, as far as it was read back.
    pub filesystems: Seq<Option<InProcessFilesystem>>,
    pub stage: OpenStage,
    pub failure: Option<SupervisorError>,
}

impl OpeningView {
    /// How many guests are opened: those whose RAM was read back.
    pub open spec fn count(self) -> nat {
        least(self.vms.len(), self.rams.len())
    }

    /// The guest at a place.
    pub open spec fn guest(self, i: int) -> GuestView {
        GuestView { kind: kind_of(self.vms[i].backend), ram: self.rams[i], filesystem: self.filesystems[i]->0 }
    }

    /// Whether the first `n` guests have their filesystems.
    pub open spec fn found(self, n: int) -> bool {
        forall|i: int| 0 <= i < n ==> #[trigger] self.filesystems[i] is Some
    }

    /// Whether the opening stands where an opening can stand.
    pub open spec fn inv(self) -> bool {
        let n = self.count();
        &&& self.filesystems.len() == self.vms.len() <= usize::MAX
        &&& forall|i: int| 0 <= i < self.rams.len() ==> (#[trigger] self.rams[i]).wf()
        &&& self.failure is Some ==> self.stage is Done
        &&& match self.stage {
            OpenStage::CreateHypervisor => self.rams.len() == 0,
            OpenStage::RestoreRams => self.rams.len() == 0,
            OpenStage::RestoreLineage(g) => g < self.lineages.len(),
            OpenStage::CreateVm(i) => i < n && self.found(i + 1),
            OpenStage::RegisterRam(i) => i < n && self.found(i + 1),
            OpenStage::StartWorker(i) => i < n && self.found(i + 1),
            OpenStage::RestoreState(i) => i < n && self.found(i + 1),
            OpenStage::BeginTracking(i) => i < n && self.found(i + 1),
            OpenStage::ResumeVm(i) => i < n && self.found(i + 1),
            OpenStage::Done => self.failure is None ==> self.found(n as int),
        }
    }
}

/// Whether the devices of a saved guest can be handed to its filesystem.
pub open spec fn attachable(backend: DurableBackend) -> bool {
    backend matches DurableBackend::Cloud { devices: Some(devices), in_process_filesystems } ==> places_fit(
        in_process_filesystems@,
        devices@.len(),
    )
}

/// A saved guest whose devices are handed to its filesystem.
pub open spec fn attached(before: VmManifest, filesystem: InProcessFilesystem, after: VmManifest) -> bool {
    &&& after.id == before.id
    &&& after.lineage == before.lineage
    &&& match (before.backend, after.backend) {
        (DurableBackend::Raw, DurableBackend::Raw) => true,
        (
            DurableBackend::Cloud { devices: d, in_process_filesystems: p },
            DurableBackend::Cloud { devices: e, in_process_filesystems: q },
        ) => {
            &&& p == q
            &&& match (d, e) {
                (None, None) => true,
                (Some(old_devices), Some(new_devices)) => new_devices@ == Seq::new(
                    old_devices@.len(),
                    |i: int| if p@.contains(i as usize) {
                        served_by(old_devices@[i], filesystem.backend_id, filesystem.dax_window_size)
                    } else {
                        old_devices@[i]
                    },
                ),
                _ => false,
            }
        },
        _ => false,
    }
}

/// What comes of turning to a guest.
pub open spec fn entered(before: OpeningView, i: int, after: OpeningView) -> bool {
    if i >= before.count() {
        after == (OpeningView { stage: OpenStage::Done, ..before })
    } else {
        match before.filesystems[i] {
            None => after == (OpeningView {
                stage: OpenStage::Done,
                failure: Some(SupervisorError::Io(IoError::InvalidData("missing restored filesystem branch"))),
                ..before
            }),
            Some(filesystem) => if !attachable(before.vms[i].backend) {
                &&& after.stage is Done
                &&& after.failure == Some(
                    SupervisorError::Io(IoError::InvalidData("in-process filesystem index is outside VM config")),
                )
                &&& after.vms.len() == before.vms.len()
                &&& after.rams == before.rams
                &&& after.lineages == before.lineages
                &&& after.filesystems == before.filesystems
            } else {
                &&& after.vms.len() == before.vms.len()
                &&& attached(before.vms[i], filesystem, after.vms[i])
                &&& after == (OpeningView {
                    vms: before.vms.update(i, after.vms[i]),
                    stage: if before.vms[i].backend is Raw {
                        OpenStage::CreateVm(i as usize)
                    } else {
                        OpenStage::StartWorker(i as usize)
                    },
                    ..before
                })
            },
        }
    }
}

/// What comes of an operation that failed.
pub open spec fn open_failed(before: OpeningView, e: SupervisorError, after: OpeningView) -> bool {
    after == (OpeningView { stage: OpenStage::Done, failure: Some(e), ..before })
}

/// What comes of reading the RAM of the guests back.
pub open spec fn rams_found(before: OpeningView, rams: Seq<RamView>, after: OpeningView) -> bool {
    let with = OpeningView { rams, ..before };
    if before.lineages.len() == 0 {
        entered(with, 0, after)
    } else {
        after == (OpeningView { stage: OpenStage::RestoreLineage(0), ..with })
    }
}

/// What comes of an operation that succeeded, other than reading RAM or a lineage back.
pub open spec fn open_continued(before: OpeningView, after: OpeningView) -> bool {
    match before.stage {
        OpenStage::CreateHypervisor => after == (OpeningView { stage: OpenStage::RestoreRams, ..before }),
        OpenStage::RestoreRams => after == before,
        OpenStage::RestoreLineage(_) => after == before,
        OpenStage::CreateVm(i) => after == (OpeningView { stage: OpenStage::RegisterRam(i), ..before }),
        OpenStage::RegisterRam(i) => entered(before, i + 1, after),
        OpenStage::StartWorker(i) => after == (OpeningView { stage: OpenStage::RestoreState(i), ..before }),
        OpenStage::RestoreState(i) => after == (OpeningView { stage: OpenStage::BeginTracking(i), ..before }),
        OpenStage::BeginTracking(i) => after == (OpeningView { stage: OpenStage::ResumeVm(i), ..before }),
        OpenStage::ResumeVm(i) => entered(before, i + 1, after),
        OpenStage::Done => after == before,
    }
}

/// What comes of reading a lineage back.
pub open spec fn lineage_restored(before: OpeningView, g: int, restored: Seq<InProcessFilesystem>, after: OpeningView) -> bool {
    let members = members_of(lineages_of(before.vms), before.lineages[g], before.vms.len() as int);
    let with = OpeningView {
        filesystems: placed(before.filesystems, members, restored, least(members.len(), restored.len()) as int),
        ..before
    };
    if g + 1 < before.lineages.len() {
        after == (OpeningView { stage: OpenStage::RestoreLineage((g + 1) as usize), ..with })
    } else {
        entered(with, 0, after)
    }
}

/// The guests of a lineage are in order, there are as many as the forest has at most, and they are
/// exactly those that belong to it.
pub proof fn lemma_members(lineages: Seq<u64>, lineage: u64, n: int)
    requires
        0 <= n <= lineages.len() <= usize::MAX,
    ensures
        members_of(lineages, lineage, n).len() <= n,
        forall|k: int| 0 <= k < members_of(lineages, lineage, n).len() ==> #[trigger] members_of(lineages, lineage, n)[k] < n
            && lineages[members_of(lineages, lineage, n)[k] as int] == lineage,
        forall|j: int, k: int| 0 <= j < k < members_of(lineages, lineage, n).len() ==> members_of(lineages, lineage, n)[j]
            < members_of(lineages, lineage, n)[k],
        forall|i: int| 0 <= i < n && #[trigger] lineages[i] == lineage ==> members_of(lineages, lineage, n).contains(i as usize),
    decreases n,
{
    if n > 0 {
        lemma_members(lineages, lineage, n - 1);
        let before = members_of(lineages, lineage, n - 1);
        let after = members_of(lineages, lineage, n);
        assert forall|i: int| 0 <= i < n && #[trigger] lineages[i] == lineage implies after.contains(i as usize) by {
            if i < n - 1 {
                assert(before.contains(i as usize));
                let k = choose|k: int| 0 <= k < before.len() && before[k] == i as usize;
                assert(after[k] == i as usize);
            } else {
                assert(after[after.len() - 1] == i as usize);
            }
        }
    }
}

/// Each filesystem that was read back has found the guest at its place, and no other guest is
/// touched.
pub proof fn lemma_placed(
    filesystems: Seq<Option<InProcessFilesystem>>,
    members: Seq<usize>,
    restored: Seq<InProcessFilesystem>,
    k: int,
)
    requires
        0 <= k <= members.len(),
        k <= restored.len(),
        forall|j: int| 0 <= j < members.len() ==> #[trigger] members[j] < filesystems.len(),
        forall|i: int, j: int| 0 <= i < j < members.len() ==> members[i] < members[j],
    ensures
        placed(filesystems, members, restored, k).len() == filesystems.len(),
        forall|j: int| 0 <= j < k ==> placed(filesystems, members, restored, k)[#[trigger] members[j] as int] == Some(restored[j]),
        forall|i: int| 0 <= i < filesystems.len() && !members.contains(i as usize) ==> #[trigger] placed(
            filesystems,
            members,
            restored,
            k,
        )[i] == filesystems[i],
    decreases k,
{
    if k > 0 {
        lemma_placed(filesystems, members, restored, k - 1);
        assert(members.contains(members[k - 1]));
    }
}

/// Reading a lineage back gives every guest of it its filesystem, in the order in which the guests
/// were saved, and leaves the other guests alone.
pub proof fn guests_find_their_filesystems(
    filesystems: Seq<Option<InProcessFilesystem>>,
    lineages: Seq<u64>,
    lineage: u64,
    restored: Seq<InProcessFilesystem>,
)
    requires
        lineages.len() <= usize::MAX,
        filesystems.len() == lineages.len(),
        restored.len() == members_of(lineages, lineage, lineages.len() as int).len(),
    ensures
        ({
            let members = members_of(lineages, lineage, lineages.len() as int);
            let after = placed(filesystems, members, restored, restored.len() as int);
            &&& after.len() == filesystems.len()
            &&& forall|k: int| 0 <= k < restored.len() ==> after[#[trigger] members[k] as int] == Some(restored[k])
            &&& forall|i: int| 0 <= i < lineages.len() && lineages[i] == lineage ==> #[trigger] after[i] is Some
            &&& forall|i: int| 0 <= i < lineages.len() && lineages[i] != lineage ==> #[trigger] after[i] == filesystems[i]
        }),
{
    let members = members_of(lineages, lineage, lineages.len() as int);
    lemma_members(lineages, lineage, lineages.len() as int);
    lemma_placed(filesystems, members, restored, restored.len() as int);
    let after = placed(filesystems, members, restored, restored.len() as int);
    assert forall|i: int| 0 <= i < lineages.len() && lineages[i] == lineage implies #[trigger] after[i] is Some by {
        assert(members.contains(i as usize));
        let k = choose|k: int| 0 <= k < members.len() && members[k] == i as usize;
        assert(after[members[k] as int] == Some(restored[k]));
    }
    assert forall|i: int| 0 <= i < lineages.len() && lineages[i] != lineage implies #[trigger] after[i] == filesystems[i] by {
        if members.contains(i as usize) {
            let k = choose|k: int| 0 <= k < members.len() && members[k] == i as usize;
            assert(lineages[members[k] as int] == lineage);
        }
    }
}

/// The guests whose filesystem belongs to a lineage.
pub fn lineage_members(vms: &Vec<VmManifest>, lineage: u64) -> (members: Vec<usize>)
    ensures
        members@ == members_of(lineages_of(vms@), lineage, vms@.len() as int),
{
    let ghost lineages = lineages_of(vms@);
    let mut members: Vec<usize> = Vec::new();
    let mut i: usize = 0;
    while i < vms.len()
        invariant
            i <= vms@.len(),
            lineages == lineages_of(vms@),
            members@ == members_of(lineages, lineage, i as int),
        decreases vms@.len() - i,
    {
        assert(lineages[i as int] == vms@[i as int].lineage);
        if vms[i].lineage == lineage {
            members.push(i);
        }
        i += 1;
    }
    members
}

/// The lineages of the guests, each once and in order.
pub fn list_lineages(vms: &Vec<VmManifest>) -> (listed: Vec<u64>)
    ensures
        lists_lineages(listed@, lineages_of(vms@)),
{
    let ghost lineages = lineages_of(vms@);
    let mut found: OrdSet<u64> = OrdSet::new();
    let mut i: usize = 0;
    while i < vms.len()
        invariant
            i <= vms@.len(),
            lineages == lineages_of(vms@),
            forall|l: u64| #[trigger] found@.contains(l) <==> lineages.take(i as int).contains(l),
        decreases vms@.len() - i,
    {
        found.insert(vms[i].lineage);
        proof {
            let before = lineages.take(i as int);
            let after = lineages.take(i + 1);
            assert(after =~= before.push(vms@[i as int].lineage));
            assert forall|l: u64| after.contains(l) <==> before.contains(l) || l == vms@[i as int].lineage by {
                if before.contains(l) {
                    let k = choose|k: int| 0 <= k < before.len() && before[k] == l;
                    assert(after[k] == l);
                }
                if l == vms@[i as int].lineage {
                    assert(after[i as int] == l);
                }
            }
        }
        i += 1;
    }
    assert(lineages.take(vms@.len() as int) =~= lineages);
    let n: usize = found.len();
    let mut listed: Vec<u64> = Vec::new();
    let mut k: usize = 0;
    while k < n
        invariant
            k <= n,
            n == found.members().len(),
            found.listed(),
            listed@ == found.members().take(k as int),
        decreases n - k,
    {
        listed.push(*found.at(k));
        assert(found.members().take(k + 1) =~= found.members().take(k as int).push(found.members()[k as int]));
        k += 1;
    }
    assert(listed@ =~= found.members());
    assert forall|l: u64| #[trigger] listed@.contains(l) <==> lineages.contains(l) by {
        assert(found@.contains(l) <==> found.members().contains(l));
    }
    listed
}

/// Gives the guests of a lineage the filesystems that were read back.
fn place(filesystems: &mut Vec<Option<InProcessFilesystem>>, members: &Vec<usize>, restored: &Vec<InProcessFilesystem>)
    requires
        forall|k: int| 0 <= k < members@.len() ==> #[trigger] members@[k] < old(filesystems)@.len(),
    ensures
        final(filesystems)@ == placed(
            old(filesystems)@,
            members@,
            restored@,
            least(members@.len(), restored@.len()) as int,
        ),
        final(filesystems)@.len() == old(filesystems)@.len(),
{
    let ghost before = filesystems@;
    let mut k: usize = 0;
    while k < members.len() && k < restored.len()
        invariant
            k <= members@.len(),
            k <= restored@.len(),
            filesystems@.len() == before.len(),
            forall|j: int| 0 <= j < members@.len() ==> #[trigger] members@[j] < before.len(),
            filesystems@ == placed(before, members@, restored@, k as int),
        decreases members@.len() - k,
    {
        filesystems.set(members[k], Some(restored[k]));
        k += 1;
    }
}

/// A saved forest that is being opened.
#[derive(Debug)]
pub struct ForestOpening {
    next_vm: u64,
    next_lineage: u64,
    vms: Vec<VmManifest>,
    rams: Vec<KvmGuestRam>,
    lineages: Vec<u64>,
    filesystems: Vec<Option<InProcessFilesystem>>,
    stage: OpenStage,
    failure: Option<SupervisorError>,
}

impl View for ForestOpening {
    type V = OpeningView;

    closed spec fn view(&self) -> OpeningView {
        OpeningView {
            vms: self.vms@,
            rams: self.rams@.map_values(|ram: KvmGuestRam| ram@),
            lineages: self.lineages@,
            filesystems: self.filesystems@,
            stage: self.stage,
            failure: self.failure,
        }
    }
}

impl ForestOpening {
    /// The numbers that the saved forest goes on with.
    pub closed spec fn numbers(self) -> (u64, u64) {
        (self.next_vm, self.next_lineage)
    }

    /// Whether the opening stands where an opening can stand.
    pub open spec fn inv(self) -> bool {
        self@.inv()
    }

    /// The operation at hand.
    pub fn stage(&self) -> (stage: OpenStage)
        ensures
            stage == self@.stage,
    {
        self.stage
    }

    /// The lineage to be read back and the guests that belong to it.
    pub fn lineage(&self, g: usize) -> (r: (u64, Vec<usize>))
        requires
            g < self@.lineages.len(),
        ensures
            r.0 == self@.lineages[g as int],
            r.1@ == members_of(lineages_of(self@.vms), r.0, self@.vms.len() as int),
    {
        let lineage: u64 = self.lineages[g];
        (lineage, lineage_members(&self.vms, lineage))
    }

    /// The saved guests.
    pub fn vms(&self) -> (vms: &Vec<VmManifest>)
        ensures
            vms@ == self@.vms,
    {
        &self.vms
    }

    /// The filesystem of a guest, where it was read back.
    pub fn filesystem(&self, i: usize) -> (filesystem: Option<InProcessFilesystem>)
        requires
            i < self@.filesystems.len(),
        ensures
            filesystem == self@.filesystems[i as int],
    {
        self.filesystems[i]
    }

    /// The RAM of a guest, where it was read back.
    pub fn ram(&self, i: usize) -> (ram: Option<&KvmGuestRam>)
        ensures
            match ram {
                Some(ram) => i < self@.rams.len() && ram@ == self@.rams[i as int],
                None => i >= self@.rams.len(),
            },
    {
        if i < self.rams.len() {
            Some(&self.rams[i])
        } else {
            None
        }
    }

    fn enter(&mut self, i: usize)
        requires
            old(self)@.filesystems.len() == old(self)@.vms.len() <= usize::MAX,
            forall|k: int| 0 <= k < old(self)@.rams.len() ==> (#[trigger] old(self)@.rams[k]).wf(),
            old(self)@.failure is None,
            i <= old(self)@.count(),
            old(self)@.found(i as int),
        ensures
            final(self).inv(),
            final(self).numbers() == old(self).numbers(),
            entered(old(self)@, i as int, final(self)@),
    {
        if i >= self.vms.len() || i >= self.rams.len() {
            self.stage = OpenStage::Done;
            return;
        }
        let filesystem = match self.filesystems[i] {
            None => {
                self.failure = Some(SupervisorError::Io(IoError::InvalidData("missing restored filesystem branch")));
                self.stage = OpenStage::Done;
                return;
            },
            Some(filesystem) => filesystem,
        };
        let ghost before = self@;
        match &mut self.vms[i].backend {
            DurableBackend::Raw => {
                self.stage = OpenStage::CreateVm(i);
            },
            DurableBackend::Cloud { devices, in_process_filesystems } => {
                if let Some(devices) = devices {
                    if let Err(error) = attach_filesystems(
                        devices,
                        in_process_filesystems,
                        filesystem.backend_id,
                        filesystem.dax_window_size,
                    ) {
                        self.failure = Some(SupervisorError::Io(error));
                        self.stage = OpenStage::Done;
                        return;
                    }
                }
                self.stage = OpenStage::StartWorker(i);
            },
        }
        assert(self@.vms =~= before.vms.update(i as int, self@.vms[i as int]));
    }

    /// Goes on with the outcome of the operation at hand, other than reading RAM or a lineage back.
    pub fn advance(&mut self, outcome: Result<(), SupervisorError>)
        requires
            old(self).inv(),
        ensures
            final(self).inv(),
            final(self).numbers() == old(self).numbers(),
            match outcome {
                Ok(()) => open_continued(old(self)@, final(self)@),
                Err(e) => if old(self)@.stage is Done || old(self)@.stage is RestoreRams || old(self)@.stage is RestoreLineage {
                    final(self)@ == old(self)@
                } else {
                    open_failed(old(self)@, e, final(self)@)
                },
            },
    {
        match self.stage {
            OpenStage::RestoreRams => {
                return;
            },
            OpenStage::RestoreLineage(_) => {
                return;
            },
            OpenStage::Done => {
                return;
            },
            _ => {},
        }
        if let Err(error) = outcome {
            self.failure = Some(error);
            self.stage = OpenStage::Done;
            return;
        }
        match self.stage {
            OpenStage::CreateHypervisor => {
                self.stage = OpenStage::RestoreRams;
            },
            OpenStage::RestoreRams => {},
            OpenStage::RestoreLineage(_) => {},
            OpenStage::CreateVm(i) => {
                self.stage = OpenStage::RegisterRam(i);
            },
            OpenStage::RegisterRam(i) => {
                self.enter(i + 1);
            },
            OpenStage::StartWorker(i) => {
                self.stage = OpenStage::RestoreState(i);
            },
            OpenStage::RestoreState(i) => {
                self.stage = OpenStage::BeginTracking(i);
            },
            OpenStage::BeginTracking(i) => {
                self.stage = OpenStage::ResumeVm(i);
            },
            OpenStage::ResumeVm(i) => {
                self.enter(i + 1);
            },
            OpenStage::Done => {},
        }
    }

    /// Goes on with the RAM of the guests.
    pub fn rams_restored(&mut self, outcome: Result<Vec<KvmGuestRam>, SupervisorError>)
        requires
            old(self).inv(),
            old(self)@.stage is RestoreRams,
            outcome matches Ok(rams) ==> forall|i: int| 0 <= i < rams@.len() ==> (#[trigger] rams@[i]).wf(),
        ensures
            final(self).inv(),
            final(self).numbers() == old(self).numbers(),
            match outcome {
                Ok(rams) => rams_found(old(self)@, rams@.map_values(|ram: KvmGuestRam| ram@), final(self)@),
                Err(e) => open_failed(old(self)@, e, final(self)@),
            },
    {
        match outcome {
            Ok(rams) => {
                self.rams = rams;
                if self.lineages.len() == 0 {
                    self.enter(0);
                } else {
                    self.stage = OpenStage::RestoreLineage(0);
                }
            },
            Err(error) => {
                self.failure = Some(error);
                self.stage = OpenStage::Done;
            },
        }
    }

    /// Goes on with the filesystems of the lineage at hand.
    pub fn restored(&mut self, outcome: Result<Vec<InProcessFilesystem>, SupervisorError>)
        requires
            old(self).inv(),
            old(self)@.stage is RestoreLineage,
        ensures
            final(self).inv(),
            final(self).numbers() == old(self).numbers(),
            match outcome {
                Ok(restored) => lineage_restored(old(self)@, old(self)@.stage->RestoreLineage_0 as int, restored@, final(self)@),
                Err(e) => open_failed(old(self)@, e, final(self)@),
            },
    {
        let restored = match outcome {
            Ok(restored) => restored,
            Err(error) => {
                self.failure = Some(error);
                self.stage = OpenStage::Done;
                assert(self@.rams =~= old(self)@.rams);
                return;
            },
        };
        if let OpenStage::RestoreLineage(g) = self.stage {
            let (lineage, members) = self.lineage(g);
            proof {
                lemma_members(lineages_of(self.vms@), lineage, self.vms@.len() as int);
            }
            place(&mut self.filesystems, &members, &restored);
            let count: usize = self.lineages.len();
            if g + 1 < count {
                self.stage = OpenStage::RestoreLineage(g + 1);
            } else {
                self.enter(0);
            }
        }
    }

    /// The forest as it was saved, unless opening it failed.
    pub fn finish(self) -> (r: Result<KvmSupervisor, SupervisorError>)
        requires
            self.inv(),
            self@.stage is Done,
        ensures
            match self@.failure {
                Some(e) => r == Err::<KvmSupervisor, SupervisorError>(e),
                None => {
                    &&& r is Ok
                    &&& r->Ok_0.wf()
                    &&& r->Ok_0@ == (KvmView {
                        next_vm: self.numbers().0,
                        next_lineage: self.numbers().1,
                        vms: guests(self@, self@.count() as int),
                        last_fork_pause: None,
                        durable: true,
                    })
                },
            },
    {
        let ghost v = self@;
        if let Some(error) = self.failure {
            return Err(error);
        }
        let mut rams = self.rams;
        let mut vms: OrdMap<KvmVmId, SupervisedVm> = OrdMap::new();
        let mut i: usize = 0;
        assert(vms@.map_values(|vm: SupervisedVm| vm@) =~= guests(v, 0));
        while i < self.vms.len() && rams.len() > 0
            invariant
                v.inv(),
                v.stage is Done,
                v.failure is None,
                v.vms == self.vms@,
                v.filesystems == self.filesystems@,
                i <= v.count(),
                rams@.len() == v.rams.len() - i,
                forall|k: int| 0 <= k < rams@.len() ==> (#[trigger] rams@[k])@ == v.rams[i + k],
                vms@.map_values(|vm: SupervisedVm| vm@) == guests(v, i as int),
                forall|n: u64| #[trigger] guests(v, i as int).contains_key(n) ==> guests(v, i as int)[n].ram.wf(),
            decreases self.vms@.len() - i,
        {
            assert(v.filesystems[i as int] is Some);
            assert(rams@[0]@ == v.rams[i as int]);
            let ghost before = vms@;
            let ram = rams.remove(0);
            let kind = match &self.vms[i].backend {
                DurableBackend::Raw => BackendKind::Raw,
                DurableBackend::Cloud { .. } => BackendKind::Cloud,
            };
            let vm = SupervisedVm { kind, ram, filesystem: self.filesystems[i].unwrap() };
            assert(vm@ == v.guest(i as int));
            vms.insert(KvmVmId::from_raw(self.vms[i].id), vm);
            assert(vms@.map_values(|vm: SupervisedVm| vm@) =~= before.map_values(|vm: SupervisedVm| vm@).insert(
                self.vms@[i as int].id,
                vm@,
            ));
            i += 1;
        }
        Ok(KvmSupervisor::restored(self.next_vm, self.next_lineage, vms))
    }
}

/// What a forest is opened from.
#[derive(Debug)]
pub enum Opened {
    /// A forest without guests: nothing was saved.
    Empty(KvmSupervisor),
    /// A saved forest.
    Saved(ForestOpening),
}

impl KvmSupervisor {
    /// Begins to open the forest of a directory, given the manifest that it holds, if any.
    pub fn open(manifest: Option<ForestManifest>) -> (r: Result<Opened, SupervisorError>)
        ensures
            match manifest {
                None => r matches Ok(Opened::Empty(supervisor)) && supervisor.wf() && supervisor@ == (KvmView {
                    next_vm: 1,
                    next_lineage: 1,
                    vms: Map::empty(),
                    last_fork_pause: None,
                    durable: true,
                }),
                Some(saved) => if saved.version != MANIFEST_VERSION {
                    r == Err::<Opened, SupervisorError>(SupervisorError::UnsupportedManifestVersion(saved.version))
                } else {
                    &&& r matches Ok(Opened::Saved(opening))
                    &&& opening.inv()
                    &&& opening.numbers() == (saved.next_vm, saved.next_lineage)
                    &&& opening@.vms == saved.vms@
                    &&& opening@.rams == Seq::<RamView>::empty()
                    &&& lists_lineages(opening@.lineages, lineages_of(saved.vms@))
                    &&& opening@.filesystems == Seq::new(saved.vms@.len(), |i: int| None::<InProcessFilesystem>)
                    &&& opening@.stage is CreateHypervisor
                    &&& opening@.failure is None
                },
            },
    {
        let manifest = match manifest {
            None => {
                return Ok(Opened::Empty(KvmSupervisor::new(true)));
            },
            Some(manifest) => manifest,
        };
        if manifest.version != MANIFEST_VERSION {
            return Err(SupervisorError::UnsupportedManifestVersion(manifest.version));
        }
        let lineages = list_lineages(&manifest.vms);
        let mut filesystems: Vec<Option<InProcessFilesystem>> = Vec::new();
        while filesystems.len() < manifest.vms.len()
            invariant
                filesystems@.len() <= manifest.vms@.len(),
                forall|i: int| 0 <= i < filesystems@.len() ==> #[trigger] filesystems@[i] is None,
            decreases manifest.vms@.len() - filesystems@.len(),
        {
            filesystems.push(None);
        }
        let opening = ForestOpening {
            next_vm: manifest.next_vm,
            next_lineage: manifest.next_lineage,
            vms: manifest.vms,
            rams: Vec::new(),
            lineages,
            filesystems,
            stage: OpenStage::CreateHypervisor,
            failure: None,
        };
        assert(opening@.rams =~= Seq::<RamView>::empty());
        assert(opening@.filesystems =~= Seq::new(opening@.vms.len(), |i: int| None::<InProcessFilesystem>));
        Ok(Opened::Saved(opening))
    }
}

/// Handing a guest's devices to its filesystem leaves the guest and what runs it the same.
pub proof fn attaching_keeps_the_guest(before: VmManifest, filesystem: InProcessFilesystem, after: VmManifest)
    requires
        attached(before, filesystem, after),
    ensures
        after.id == before.id,
        kind_of(after.backend) == kind_of(before.backend),
{
}

} // verus!
