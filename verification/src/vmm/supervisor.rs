//! The guests of a fork forest.
//!
//! The hypervisor, the mapped memory, the files and the clocks are outside. Guests are made, forked,
//! saved and read back in protocols: each says which operation is at hand, and goes on with its
//! outcome.

use vstd::prelude::*;
use vstd::string::StringExecFns;

use crate::bytes::zero_bytes;
#[allow(unused_imports)]
use crate::bytes::{bytes_at, laid_over};
use crate::cache::shared::CachePageAccounting;
use crate::cache::store::CacheError;
#[allow(unused_imports)]
use crate::census::{held, held_twice, lemma_held, lemma_held_twice};
use crate::io::IoError;
use crate::ordered::{Key, OrdMap, Position};
#[allow(unused_imports)]
use crate::ordered::ascending;
use crate::text::append_decimal;
#[allow(unused_imports)]
use crate::text::decimal;
use crate::vmm::barrier::Barrier;
use crate::vmm::creation::{CloudVmCreation, VmCreation};
#[allow(unused_imports)]
use crate::vmm::creation::{CloudCreateStage, CloudCreationView, CreateStage, CreationView};
use crate::vmm::devices::{FsConfig, InProcessFilesystem};
use crate::vmm::error::Error;
use crate::vmm::forking::{CloudVmFork, GuestFork, VmFork};
#[allow(unused_imports)]
use crate::vmm::ram::{KvmGuestRam, RamAccounting, RamIds};
#[allow(unused_imports)]
use crate::vmm::ram::{branch_ram, generation_ids, new_ram, new_ram_actions, new_ram_ids, page_ids, ram_size_fits, RamView};

verus! {

pub const RAM_SLOT: u32 = 0;

pub const RAM_GPA: u64 = 0;

pub const MANIFEST_VERSION: u32 = 1;

/// Stable identity of a guest.
#[derive(Clone, Copy, Debug, Eq, Ord, PartialEq, PartialOrd, Structural)]
pub struct KvmVmId(u64);

impl KvmVmId {
    /// The number behind the identity.
    pub closed spec fn number(self) -> u64 {
        self.0
    }

    pub fn from_raw(id: u64) -> (vm: Self)
        ensures
            vm.number() == id,
    {
        KvmVmId(id)
    }

    pub fn into_raw(self) -> (id: u64)
        ensures
            id == self.number(),
    {
        self.0
    }
}

impl View for KvmVmId {
    type V = u64;

    open spec fn view(&self) -> u64 {
        self.number()
    }
}

impl Key for KvmVmId {
    open spec fn less(a: u64, b: u64) -> bool {
        a < b
    }

    proof fn less_total(a: u64, b: u64) {
    }

    proof fn less_irreflexive(a: u64) {
    }

    proof fn less_transitive(a: u64, b: u64, c: u64) {
    }

    fn position(&self, other: &KvmVmId) -> (p: Position) {
        self.0.position(&other.0)
    }

    fn duplicate(&self) -> (copy: KvmVmId) {
        *self
    }
}

/// Failure of an operation on guests.
#[derive(Debug)]
pub enum SupervisorError {
    VmNotFound(KvmVmId),
    Vmm(Error),
    Cache(CacheError),
    Io(IoError),
    Json(String),
    UnsupportedManifestVersion(u32),
    DurabilityRequired,
    Backend { operation: &'static str, message: String },
}

/// What runs a guest.
#[derive(Clone, Copy, Debug, Eq, PartialEq, Structural)]
pub enum BackendKind {
    Raw,
    Cloud,
}

/// Counts of the pages behind all guests.
#[derive(Clone, Copy, Debug, Eq, PartialEq, Structural)]
pub struct KvmForkAccounting {
    pub memory: RamAccounting,
    pub filesystem: CachePageAccounting,
}

/// A guest of a fork forest.
#[derive(Debug)]
pub struct SupervisedVm {
    pub kind: BackendKind,
    pub ram: KvmGuestRam,
    pub filesystem: InProcessFilesystem,
}

/// What is known of a guest.
#[verifier::ext_equal]
pub struct GuestView {
    pub kind: BackendKind,
    pub ram: RamView,
    pub filesystem: InProcessFilesystem,
}

impl View for SupervisedVm {
    type V = GuestView;

    open spec fn view(&self) -> GuestView {
        GuestView { kind: self.kind, ram: self.ram@, filesystem: self.filesystem }
    }
}

/// Owns the guests of one fork forest: their memory slots and their filesystems.
#[derive(Debug)]
pub struct KvmSupervisor {
    next_vm: u64,
    next_lineage: u64,
    vms: OrdMap<KvmVmId, SupervisedVm>,
    last_fork_pause: Option<u64>,
    durable: bool,
}

/// What is known of the guests of one fork forest.
#[verifier::ext_equal]
pub struct KvmView {
    pub next_vm: u64,
    pub next_lineage: u64,
    pub vms: Map<u64, GuestView>,
    /// How long, in nanoseconds, the source of the last fork was paused.
    pub last_fork_pause: Option<u64>,
    /// Whether the forest can be saved.
    pub durable: bool,
}

impl View for KvmSupervisor {
    type V = KvmView;

    closed spec fn view(&self) -> KvmView {
        KvmView {
            next_vm: self.next_vm,
            next_lineage: self.next_lineage,
            vms: self.vms@.map_values(|vm: SupervisedVm| vm@),
            last_fork_pause: self.last_fork_pause,
            durable: self.durable,
        }
    }
}

impl KvmView {
    /// Whether the RAM of every guest is well formed.
    pub open spec fn wf(self) -> bool {
        forall|n: u64| #[trigger] self.vms.contains_key(n) ==> self.vms[n].ram.wf()
    }

    /// The forest with one more guest.
    pub open spec fn with_vm(self, vm: GuestView) -> KvmView {
        KvmView { next_vm: (self.next_vm + 1) as u64, vms: self.vms.insert(self.next_vm, vm), ..self }
    }

    /// The guests once the host has written `len` bytes to the RAM of one.
    pub open spec fn ram_written(self, id: u64, address: int, len: int) -> KvmView {
        KvmView { vms: self.vms.insert(id, GuestView { ram: self.vms[id].ram.written(address, len), ..self.vms[id] }), ..self }
    }

    /// The forest with a guest back that was taken out.
    pub open spec fn put_back(self, id: u64, vm: GuestView) -> KvmView {
        KvmView { vms: self.vms.insert(id, vm), ..self }
    }

    /// The forest with the source of a fork back and its child added. The child has the pages of RAM
    /// that the source has.
    pub open spec fn forked(self, id: u64, source: GuestView, kind: BackendKind, filesystem: InProcessFilesystem, pause: u64) -> KvmView {
        let child = GuestView { kind, ram: branch_ram(source.ram.pages), filesystem };
        KvmView { last_fork_pause: Some(pause), ..self.put_back(id, source).with_vm(child) }
    }

    /// Every guest has a number below the next one.
    pub open spec fn ids_fresh(self) -> bool {
        forall|n: u64| #[trigger] self.vms.contains_key(n) ==> n < self.next_vm
    }
}

/// What the access to a guest begins with.
pub open spec fn access_begun(before: KvmView, vm: KvmVmId, r: Result<Barrier<SupervisorError>, SupervisorError>) -> bool {
    match r {
        Ok(access) => before.vms.contains_key(vm.number()) && access.fresh(),
        Err(e) => !before.vms.contains_key(vm.number()) && e == SupervisorError::VmNotFound(vm),
    }
}

impl KvmSupervisor {
    pub open spec fn wf(self) -> bool {
        self@.wf()
    }

    /// A forest without guests.
    pub fn new(durable: bool) -> (supervisor: Self)
        ensures
            supervisor.wf(),
            supervisor@ == (KvmView { next_vm: 1, next_lineage: 1, vms: Map::empty(), last_fork_pause: None, durable }),
    {
        let supervisor = KvmSupervisor { next_vm: 1, next_lineage: 1, vms: OrdMap::new(), last_fork_pause: None, durable };
        assert(supervisor@.vms =~= Map::empty());
        supervisor
    }

    /// A forest with storage, as it was saved.
    pub(crate) fn restored(next_vm: u64, next_lineage: u64, vms: OrdMap<KvmVmId, SupervisedVm>) -> (supervisor: Self)
        ensures
            supervisor@ == (KvmView {
                next_vm,
                next_lineage,
                vms: vms@.map_values(|vm: SupervisedVm| vm@),
                last_fork_pause: None,
                durable: true,
            }),
    {
        KvmSupervisor { next_vm, next_lineage, vms, last_fork_pause: None, durable: true }
    }

    /// A guest.
    pub fn vm(&self, id: KvmVmId) -> (r: Result<&SupervisedVm, SupervisorError>)
        ensures
            match r {
                Ok(vm) => self@.vms.contains_key(id.number()) && vm@ == self@.vms[id.number()],
                Err(e) => !self@.vms.contains_key(id.number()) && e == SupervisorError::VmNotFound(id),
            },
    {
        match self.vms.get(&id) {
            Some(vm) => Ok(vm),
            None => Err(SupervisorError::VmNotFound(id)),
        }
    }

    /// What runs a guest.
    pub fn kind(&self, vm: KvmVmId) -> (r: Result<BackendKind, SupervisorError>)
        ensures
            r == (if self@.vms.contains_key(vm.number()) {
                Ok::<BackendKind, SupervisorError>(self@.vms[vm.number()].kind)
            } else {
                Err::<BackendKind, SupervisorError>(SupervisorError::VmNotFound(vm))
            }),
    {
        match self.vm(vm) {
            Ok(vm) => Ok(vm.kind),
            Err(error) => Err(error),
        }
    }

    /// The guests, in order.
    pub fn vm_ids(&self) -> (ids: Vec<KvmVmId>)
        ensures
            ascending::<KvmVmId>(ids@.map_values(|id: KvmVmId| id.number())),
            forall|n: u64| #[trigger] self@.vms.contains_key(n) <==> ids@.map_values(|id: KvmVmId| id.number()).contains(n),
    {
        let n: usize = self.vms.len();
        let mut ids: Vec<KvmVmId> = Vec::new();
        let mut i: usize = 0;
        while i < n
            invariant
                i <= n,
                n == self.vms.keys().len(),
                self.vms.listed(),
                ids@.len() == i,
                forall|j: int| 0 <= j < i ==> (#[trigger] ids@[j])@ == self.vms.keys()[j],
            decreases n - i,
        {
            ids.push(*self.vms.key_at(i));
            i += 1;
        }
        assert(ids@.map_values(|id: KvmVmId| id.number()) =~= self.vms.keys());
        assert forall|x: u64| #[trigger] self@.vms.contains_key(x) <==> ids@.map_values(|id: KvmVmId| id.number()).contains(x) by {
            assert(self.vms@.contains_key(x) <==> self.vms.keys().contains(x));
        }
        ids
    }

    /// Takes a guest out of the forest.
    pub fn remove_vm(&mut self, vm: KvmVmId) -> (r: Result<(), SupervisorError>)
        ensures
            final(self)@ == (KvmView { vms: old(self)@.vms.remove(vm.number()), ..old(self)@ }),
            r == (if old(self)@.vms.contains_key(vm.number()) {
                Ok::<(), SupervisorError>(())
            } else {
                Err::<(), SupervisorError>(SupervisorError::VmNotFound(vm))
            }),
    {
        let removed = self.vms.remove(&vm);
        assert(self@.vms =~= old(self)@.vms.remove(vm.number()));
        match removed {
            Some(_) => Ok(()),
            None => Err(SupervisorError::VmNotFound(vm)),
        }
    }

    /// The lineage for the filesystem of a new guest; there is none where nothing is saved.
    pub fn create_filesystem(&mut self) -> (lineage: Option<u64>)
        requires
            old(self)@.next_lineage < u64::MAX,
        ensures
            if old(self)@.durable {
                &&& lineage == Some(old(self)@.next_lineage)
                &&& final(self)@ == (KvmView { next_lineage: (old(self)@.next_lineage + 1) as u64, ..old(self)@ })
            } else {
                lineage is None && final(self)@ == old(self)@
            },
    {
        if !self.durable {
            return None;
        }
        let lineage: u64 = self.next_lineage;
        self.next_lineage = lineage + 1;
        Some(lineage)
    }

    fn put(&mut self, id: KvmVmId, vm: SupervisedVm)
        ensures
            final(self)@ == old(self)@.put_back(id.number(), vm@),
    {
        self.vms.insert(id, vm);
        assert(self@.vms =~= old(self)@.vms.insert(id.number(), vm@));
    }

    /// Adds a guest that is ready.
    pub fn add_vm(&mut self, vm: SupervisedVm) -> (id: KvmVmId)
        requires
            old(self)@.next_vm < u64::MAX,
        ensures
            id.number() == old(self)@.next_vm,
            final(self)@ == old(self)@.with_vm(vm@),
    {
        let id = KvmVmId(self.next_vm);
        self.next_vm = self.next_vm + 1;
        self.put(id, vm);
        id
    }

    /// How long the source of the last fork was paused.
    pub fn last_fork_pause(&self) -> (pause: Option<u64>)
        ensures
            pause == self@.last_fork_pause,
    {
        self.last_fork_pause
    }

    /// Whether the forest can be saved.
    pub fn is_durable(&self) -> (durable: bool)
        ensures
            durable == self@.durable,
    {
        self.durable
    }

    /// The number of the next guest and of the next lineage.
    pub fn next_numbers(&self) -> (numbers: (u64, u64))
        ensures
            numbers == (self@.next_vm, self@.next_lineage),
    {
        (self.next_vm, self.next_lineage)
    }
}

impl KvmView {
    /// The pages of RAM that the guests have.
    pub open spec fn ram_pages(self) -> Set<u64> {
        Set::new(|page: u64| exists|n: u64| #[trigger] self.vms.contains_key(n) && page_ids(self.vms[n].ram.pages).contains(page))
    }

    /// The pages of RAM that two or more guests have.
    pub open spec fn shared_ram_pages(self) -> Set<u64> {
        Set::new(
            |page: u64|
                exists|n: u64, m: u64|
                    {
                        &&& n != m
                        &&& #[trigger] self.vms.contains_key(n)
                        &&& #[trigger] self.vms.contains_key(m)
                        &&& page_ids(self.vms[n].ram.pages).contains(page)
                        &&& page_ids(self.vms[m].ram.pages).contains(page)
                    },
        )
    }

    /// The generations that hold the guests' pages of RAM.
    pub open spec fn ram_generations(self) -> Set<u64> {
        Set::new(|g: u64| exists|n: u64| #[trigger] self.vms.contains_key(n) && generation_ids(self.vms[n].ram.pages).contains(g))
    }
}

impl KvmSupervisor {
    /// Counts the pages behind all guests.
    pub fn page_accounting(&self, filesystem: CachePageAccounting) -> (accounting: KvmForkAccounting)
        ensures
            accounting.filesystem == filesystem,
            accounting.memory.resident_pages == self@.ram_pages().len(),
            accounting.memory.shared_pages == self@.shared_ram_pages().len(),
            accounting.memory.backing_files == self@.ram_generations().len(),
    {
        let n: usize = self.vms.len();
        let mut rams: Vec<&KvmGuestRam> = Vec::new();
        let mut i: usize = 0;
        while i < n
            invariant
                i <= n,
                n == self.vms.keys().len(),
                self.vms.listed(),
                rams@.len() == i,
                forall|j: int| 0 <= j < i ==> (#[trigger] rams@[j])@ == self.vms@[self.vms.keys()[j]].ram@,
            decreases n - i,
        {
            rams.push(&self.vms.value_at(i).ram);
            i += 1;
        }
        let memory = KvmGuestRam::page_accounting(&rams);
        proof {
            let ids = rams@.map_values(|ram: &KvmGuestRam| page_ids(ram@.pages));
            let generations = rams@.map_values(|ram: &KvmGuestRam| generation_ids(ram@.pages));
            let keys = self.vms.keys();
            assert forall|k: int| 0 <= k < n implies self@.vms.contains_key(#[trigger] keys[k]) && ids[k] == page_ids(self@.vms[keys[k]].ram.pages)
                && generations[k] == generation_ids(self@.vms[keys[k]].ram.pages) by {
                assert(keys.contains(keys[k]));
            }
            assert forall|x: u64| self@.vms.contains_key(x) implies exists|k: int| 0 <= k < n && #[trigger] keys[k] == x by {
                assert(keys.contains(x));
            }
            assert(held(ids) =~= self@.ram_pages()) by {
                assert forall|page: u64| held(ids).contains(page) <==> self@.ram_pages().contains(page) by {
                    lemma_held(ids, page);
                    if held(ids).contains(page) {
                        let k = choose|k: int| 0 <= k < ids.len() && (#[trigger] ids[k]).contains(page);
                        assert(self@.vms.contains_key(keys[k]));
                    }
                    if self@.ram_pages().contains(page) {
                        let x = choose|x: u64| #[trigger] self@.vms.contains_key(x) && page_ids(self@.vms[x].ram.pages).contains(page);
                        let k = choose|k: int| 0 <= k < n && #[trigger] keys[k] == x;
                        assert(ids[k].contains(page));
                    }
                }
            }
            assert(held(generations) =~= self@.ram_generations()) by {
                assert forall|g: u64| held(generations).contains(g) <==> self@.ram_generations().contains(g) by {
                    lemma_held(generations, g);
                    if held(generations).contains(g) {
                        let k = choose|k: int| 0 <= k < generations.len() && (#[trigger] generations[k]).contains(g);
                        assert(self@.vms.contains_key(keys[k]));
                    }
                    if self@.ram_generations().contains(g) {
                        let x = choose|x: u64| #[trigger] self@.vms.contains_key(x) && generation_ids(self@.vms[x].ram.pages).contains(g);
                        let k = choose|k: int| 0 <= k < n && #[trigger] keys[k] == x;
                        assert(generations[k].contains(g));
                    }
                }
            }
            assert(held_twice(ids) =~= self@.shared_ram_pages()) by {
                assert forall|page: u64| held_twice(ids).contains(page) <==> self@.shared_ram_pages().contains(page) by {
                    lemma_held_twice(ids, page);
                    if held_twice(ids).contains(page) {
                        let (j, k) = choose|j: int, k: int|
                            0 <= j < k < ids.len() && (#[trigger] ids[j]).contains(page) && (#[trigger] ids[k]).contains(page);
                        assert(keys[j] != keys[k]);
                        assert(self@.vms.contains_key(keys[j]) && self@.vms.contains_key(keys[k]));
                    }
                    if self@.shared_ram_pages().contains(page) {
                        let (x, y) = choose|x: u64, y: u64|
                            {
                                &&& x != y
                                &&& #[trigger] self@.vms.contains_key(x)
                                &&& #[trigger] self@.vms.contains_key(y)
                                &&& page_ids(self@.vms[x].ram.pages).contains(page)
                                &&& page_ids(self@.vms[y].ram.pages).contains(page)
                            };
                        let j = choose|k: int| 0 <= k < n && #[trigger] keys[k] == x;
                        let k = choose|k: int| 0 <= k < n && #[trigger] keys[k] == y;
                        assert(ids[j].contains(page) && ids[k].contains(page));
                    }
                }
            }
        }
        KvmForkAccounting { memory, filesystem }
    }

    fn access(&self, vm: KvmVmId) -> (r: Result<Barrier<SupervisorError>, SupervisorError>)
        ensures
            access_begun(self@, vm, r),
    {
        match self.vm(vm) {
            Ok(_) => Ok(Barrier::new()),
            Err(error) => Err(error),
        }
    }

    /// Begins to make a file in a guest's filesystem.
    pub fn create_file(&self, vm: KvmVmId) -> (r: Result<Barrier<SupervisorError>, SupervisorError>)
        ensures
            access_begun(self@, vm, r),
    {
        self.access(vm)
    }

    /// Begins to write a guest's memory; it is written with `write_ram` while the guest is paused.
    pub fn write_memory(&self, vm: KvmVmId) -> (r: Result<Barrier<SupervisorError>, SupervisorError>)
        ensures
            access_begun(self@, vm, r),
    {
        self.access(vm)
    }

    /// Begins to read a guest's memory; it is read with `read_ram` while the guest is paused.
    pub fn read_memory(&self, vm: KvmVmId) -> (r: Result<Barrier<SupervisorError>, SupervisorError>)
        ensures
            access_begun(self@, vm, r),
    {
        self.access(vm)
    }

    /// Begins to write a file of a guest.
    pub fn write_file(&self, vm: KvmVmId) -> (r: Result<Barrier<SupervisorError>, SupervisorError>)
        ensures
            access_begun(self@, vm, r),
    {
        self.access(vm)
    }

    /// Begins to read a file of a guest.
    pub fn read_file(&self, vm: KvmVmId) -> (r: Result<Barrier<SupervisorError>, SupervisorError>)
        ensures
            access_begun(self@, vm, r),
    {
        self.access(vm)
    }

    /// Writes the memory of a paused guest, of which `memory` holds the bytes.
    pub fn write_ram(&mut self, vm: KvmVmId, memory: &mut [u8], guest_address: usize, bytes: &[u8]) -> (r: Result<(), SupervisorError>)
        requires
            old(self).wf(),
            old(self)@.vms.contains_key(vm.number()) ==> old(memory)@.len() == old(self)@.vms[vm.number()].ram.len(),
        ensures
            final(self).wf(),
            ({
                let v = old(self)@;
                let was = v.vms[vm.number()];
                if !v.vms.contains_key(vm.number()) {
                    &&& r == Err::<(), SupervisorError>(SupervisorError::VmNotFound(vm))
                    &&& final(self)@ == v
                    &&& final(memory)@ == old(memory)@
                } else if guest_address + bytes@.len() > was.ram.len() {
                    &&& r == Err::<(), SupervisorError>(
                        SupervisorError::Vmm(Error::RamRange { offset: guest_address, len: bytes@.len() as usize }),
                    )
                    &&& final(self)@ == v
                    &&& final(memory)@ == old(memory)@
                } else {
                    &&& r == Ok::<(), SupervisorError>(())
                    &&& final(memory)@ == laid_over(old(memory)@, guest_address as int, bytes@)
                    &&& final(self)@ == v.ram_written(vm.number(), guest_address as int, bytes@.len() as int)
                }
            }),
    {
        let ghost v = self@;
        let mut guest = match self.vms.remove(&vm) {
            Some(guest) => guest,
            None => {
                assert(self@.vms =~= v.vms);
                return Err(SupervisorError::VmNotFound(vm));
            },
        };
        assert(v.vms.contains_key(vm.number()) && v.vms[vm.number()] == guest@);
        assert(self@.vms =~= v.vms.remove(vm.number()));
        let outcome = guest.ram.write(memory, guest_address, bytes);
        self.put(vm, guest);
        assert(self@.vms =~= v.vms.insert(vm.number(), guest@));
        match outcome {
            Ok(()) => Ok(()),
            Err(error) => {
                assert(self@.vms =~= v.vms);
                Err(SupervisorError::Vmm(error))
            },
        }
    }

    /// Reads the memory of a paused guest, of which `memory` holds the bytes.
    pub fn read_ram(&self, vm: KvmVmId, memory: &[u8], guest_address: usize, len: usize) -> (r: Result<Vec<u8>, SupervisorError>)
        requires
            self.wf(),
            self@.vms.contains_key(vm.number()) ==> memory@.len() == self@.vms[vm.number()].ram.len(),
        ensures
            match r {
                Ok(bytes) => {
                    &&& self@.vms.contains_key(vm.number())
                    &&& guest_address + len <= memory@.len()
                    &&& bytes@ == bytes_at(memory@, guest_address as int, len as nat)
                },
                Err(e) => if self@.vms.contains_key(vm.number()) {
                    guest_address + len > memory@.len() && e == SupervisorError::Vmm(Error::RamRange { offset: guest_address, len })
                } else {
                    e == SupervisorError::VmNotFound(vm)
                },
            },
    {
        let guest = match self.vm(vm) {
            Ok(guest) => guest,
            Err(error) => {
                return Err(error);
            },
        };
        let mut bytes = zero_bytes(len);
        match guest.ram.read(memory, guest_address, bytes.as_mut_slice()) {
            Ok(()) => Ok(bytes),
            Err(error) => Err(SupervisorError::Vmm(error)),
        }
    }

    /// Begins to make a guest without a device model and with so much memory.
    pub fn create_vm(&self, ram_size: usize) -> (creation: VmCreation)
        ensures
            creation.size() == ram_size,
            creation@ == (CreationView {
                stage: CreateStage::CreateVm,
                failure: None,
                ram: None,
                actions: Seq::empty(),
                filesystem: None,
            }),
    {
        VmCreation::begin(ram_size)
    }

    /// Begins to make a guest with a device model and so much memory, with the filesystem devices of
    /// its configuration, if it has any.
    pub fn create_cloud_vm(&self, memory: u64, devices: Option<Vec<FsConfig>>, ids: &mut RamIds) -> (r: Result<
        CloudVmCreation,
        SupervisorError,
    >)
        requires
            old(ids).next_page + memory / 4096 <= u64::MAX,
            old(ids).next_generation < u64::MAX,
        ensures
            match r {
                Ok(creation) => {
                    &&& memory <= usize::MAX
                    &&& ram_size_fits(memory as usize)
                    &&& *final(ids) == new_ram_ids(memory as usize, *old(ids))
                    &&& creation@ == (CloudCreationView {
                        stage: CloudCreateStage::MapRam,
                        failure: None,
                        ram: new_ram(memory as usize, *old(ids)),
                        actions: new_ram_actions(memory as usize, *old(ids)),
                        devices,
                        filesystem: None,
                    })
                    &&& creation.inv()
                },
                Err(e) => {
                    &&& *final(ids) == *old(ids)
                    &&& if memory > usize::MAX {
                        e == SupervisorError::Vmm(Error::InvalidRamSize(usize::MAX))
                    } else {
                        !ram_size_fits(memory as usize) && e == SupervisorError::Vmm(Error::InvalidRamSize(memory as usize))
                    }
                },
            },
    {
        if memory > usize::MAX as u64 {
            return Err(SupervisorError::Vmm(Error::InvalidRamSize(usize::MAX)));
        }
        match KvmGuestRam::new(memory as usize, ids) {
            Ok((ram, actions)) => Ok(CloudVmCreation::begin(ram, actions, devices)),
            Err(error) => Err(SupervisorError::Vmm(error)),
        }
    }

    /// Adds the guest that was made, unless making it failed.
    pub fn finish_creation(&mut self, creation: VmCreation) -> (r: Result<KvmVmId, SupervisorError>)
        requires
            old(self).wf(),
            old(self)@.next_vm < u64::MAX,
            creation.inv(),
            creation@.stage is Done,
        ensures
            final(self).wf(),
            match creation@.failure {
                Some(e) => r == Err::<KvmVmId, SupervisorError>(e) && final(self)@ == old(self)@,
                None => {
                    &&& creation@.ram is Some && creation@.filesystem is Some
                    &&& r is Ok && r->Ok_0.number() == old(self)@.next_vm
                    &&& final(self)@ == old(self)@.with_vm(
                        GuestView { kind: BackendKind::Raw, ram: creation@.ram->0, filesystem: creation@.filesystem->0 },
                    )
                },
            },
    {
        match creation.finish() {
            Ok(vm) => Ok(self.add_vm(vm)),
            Err(error) => Err(error),
        }
    }

    /// Adds the guest that was made, unless making it failed.
    pub fn finish_cloud_creation(&mut self, creation: CloudVmCreation) -> (r: Result<KvmVmId, SupervisorError>)
        requires
            old(self).wf(),
            old(self)@.next_vm < u64::MAX,
            creation.inv(),
            creation@.stage is Done,
        ensures
            final(self).wf(),
            match creation@.failure {
                Some(e) => r == Err::<KvmVmId, SupervisorError>(e) && final(self)@ == old(self)@,
                None => {
                    &&& creation@.filesystem is Some
                    &&& r is Ok && r->Ok_0.number() == old(self)@.next_vm
                    &&& final(self)@ == old(self)@.with_vm(
                        GuestView { kind: BackendKind::Cloud, ram: creation@.ram, filesystem: creation@.filesystem->0 },
                    )
                },
            },
    {
        match creation.finish() {
            Ok(vm) => Ok(self.add_vm(vm)),
            Err(error) => Err(error),
        }
    }

    /// Begins to fork a guest, in the way of what runs it. The fork holds the guest until it is
    /// finished.
    pub fn fork_vm(&mut self, source: KvmVmId) -> (r: Result<GuestFork, SupervisorError>)
        requires
            old(self).wf(),
        ensures
            final(self).wf(),
            final(self)@ == (KvmView { vms: old(self)@.vms.remove(source.number()), ..old(self)@ }),
            match r {
                Ok(fork) => old(self)@.vms.contains_key(source.number()) && fork.begun(source, old(self)@.vms[source.number()]),
                Err(e) => !old(self)@.vms.contains_key(source.number()) && e == SupervisorError::VmNotFound(source),
            },
    {
        let ghost v = self@;
        let removed = self.vms.remove(&source);
        assert(self@.vms =~= v.vms.remove(source.number()));
        match removed {
            Some(vm) => {
                assert(v.vms.contains_key(source.number()) && v.vms[source.number()] == vm@);
                Ok(GuestFork::begin(source, vm))
            },
            None => Err(SupervisorError::VmNotFound(source)),
        }
    }

    /// Puts the source of a fork back and adds the child, unless the fork failed.
    pub fn finish_fork(&mut self, fork: VmFork, pause: u64) -> (r: Result<KvmVmId, SupervisorError>)
        requires
            old(self).wf(),
            old(self)@.next_vm < u64::MAX,
            fork.inv(),
            fork@.stage is Done,
        ensures
            final(self).wf(),
            match fork@.failure {
                Some(e) => r == Err::<KvmVmId, SupervisorError>(e) && final(self)@ == old(self)@.put_back(fork@.id, fork@.source),
                None => {
                    &&& fork@.filesystem is Some
                    &&& r is Ok && r->Ok_0.number() == old(self)@.next_vm
                    &&& final(self)@ == old(self)@.forked(fork@.id, fork@.source, BackendKind::Raw, fork@.filesystem->0, pause)
                },
            },
    {
        let (id, source, child) = fork.finish();
        self.put(id, source);
        match child {
            Ok(vm) => {
                let child = self.add_vm(vm);
                self.last_fork_pause = Some(pause);
                Ok(child)
            },
            Err(error) => Err(error),
        }
    }

    /// Puts the source of a fork back and adds the child, unless the fork failed.
    pub fn finish_cloud_fork(&mut self, fork: CloudVmFork, pause: u64) -> (r: Result<KvmVmId, SupervisorError>)
        requires
            old(self).wf(),
            old(self)@.next_vm < u64::MAX,
            fork.inv(),
            fork@.stage is Done,
        ensures
            final(self).wf(),
            match fork@.failure {
                Some(e) => r == Err::<KvmVmId, SupervisorError>(e) && final(self)@ == old(self)@.put_back(fork@.id, fork@.source),
                None => {
                    &&& fork@.filesystem is Some
                    &&& r is Ok && r->Ok_0.number() == old(self)@.next_vm
                    &&& final(self)@ == old(self)@.forked(fork@.id, fork@.source, BackendKind::Cloud, fork@.filesystem->0, pause)
                },
            },
    {
        let (id, source, child) = fork.finish();
        self.put(id, source);
        match child {
            Ok(vm) => {
                let child = self.add_vm(vm);
                self.last_fork_pause = Some(pause);
                Ok(child)
            },
            Err(error) => Err(error),
        }
    }
}

/// The number of a new guest is that of no other guest, and all other guests stay what they are.
pub proof fn new_guest_is_another(before: KvmView, vm: GuestView)
    requires
        before.ids_fresh(),
        before.next_vm < u64::MAX,
    ensures
        !before.vms.contains_key(before.next_vm),
        before.with_vm(vm).ids_fresh(),
        before.with_vm(vm).vms.remove(before.next_vm) == before.vms,
{
    assert(before.with_vm(vm).vms.remove(before.next_vm) =~= before.vms);
}

/// A fork adds one guest to the forest and copies no page of RAM for it: source and child have the same
/// pages, each of which two guests now have. All other guests stay what they are.
pub proof fn fork_shares_all_ram(
    before: KvmView,
    id: u64,
    source: GuestView,
    kind: BackendKind,
    filesystem: InProcessFilesystem,
    pause: u64,
)
    requires
        before.ids_fresh(),
        before.vms.contains_key(id),
        before.next_vm < u64::MAX,
    ensures
        ({
            let taken = KvmView { vms: before.vms.remove(id), ..before };
            let child = before.next_vm;
            let after = taken.forked(id, source, kind, filesystem, pause);
            &&& !before.vms.contains_key(child)
            &&& after.ids_fresh()
            &&& after.vms.dom() == before.vms.dom().insert(child)
            &&& after.vms[id] == source
            &&& after.vms[child].ram.pages == source.ram.pages
            &&& after.vms[child].filesystem == filesystem
            &&& forall|n: u64| before.vms.contains_key(n) && n != id ==> #[trigger] after.vms[n] == before.vms[n]
            &&& after.ram_pages() == taken.put_back(id, source).ram_pages()
            &&& forall|page: u64| #[trigger] page_ids(source.ram.pages).contains(page) ==> after.shared_ram_pages().contains(page)
        }),
{
    let taken = KvmView { vms: before.vms.remove(id), ..before };
    let child = before.next_vm;
    let back = taken.put_back(id, source);
    let after = taken.forked(id, source, kind, filesystem, pause);
    assert(after.vms.dom() =~= before.vms.dom().insert(child));
    assert(after.vms.contains_key(id) && after.vms.contains_key(child) && back.vms.contains_key(id));
    assert forall|page: u64| after.ram_pages().contains(page) <==> back.ram_pages().contains(page) by {
        if after.ram_pages().contains(page) {
            let n = choose|n: u64| #[trigger] after.vms.contains_key(n) && page_ids(after.vms[n].ram.pages).contains(page);
            if n == child {
                assert(page_ids(back.vms[id].ram.pages).contains(page));
            } else {
                assert(back.vms.contains_key(n));
            }
        }
        if back.ram_pages().contains(page) {
            let n = choose|n: u64| #[trigger] back.vms.contains_key(n) && page_ids(back.vms[n].ram.pages).contains(page);
            assert(after.vms.contains_key(n));
        }
    }
    assert(after.ram_pages() =~= back.ram_pages());
}

impl SupervisorError {
    /// The error in words; `inner` is the text of the failure behind it, where it has one.
    pub fn message(&self, inner: &str) -> (text: String)
        ensures
            text@ == (match *self {
                SupervisorError::VmNotFound(vm) => "VM KvmVmId("@ + decimal(vm.number() as nat) + ") does not exist"@,
                SupervisorError::Vmm(_) => inner@,
                SupervisorError::Cache(_) => inner@,
                SupervisorError::Io(_) => inner@,
                SupervisorError::Json(_) => inner@,
                SupervisorError::UnsupportedManifestVersion(version) => "manifest version "@ + decimal(version as nat)
                    + " is not supported"@,
                SupervisorError::DurabilityRequired => "checkpoint requires a supervisor opened with durable storage"@,
                SupervisorError::Backend { operation, message } => operation@ + ": "@ + message@,
            }),
    {
        match self {
            SupervisorError::VmNotFound(vm) => {
                let mut text: String = "VM KvmVmId(".to_owned();
                append_decimal(&mut text, vm.0);
                text.append(") does not exist");
                text
            },
            SupervisorError::Vmm(_) => inner.to_owned(),
            SupervisorError::Cache(_) => inner.to_owned(),
            SupervisorError::Io(_) => inner.to_owned(),
            SupervisorError::Json(_) => inner.to_owned(),
            SupervisorError::UnsupportedManifestVersion(version) => {
                let mut text: String = "manifest version ".to_owned();
                append_decimal(&mut text, *version as u64);
                text.append(" is not supported");
                text
            },
            SupervisorError::DurabilityRequired => "checkpoint requires a supervisor opened with durable storage".to_owned(),
            SupervisorError::Backend { operation, message } => {
                let mut text: String = (*operation).to_owned();
                text.append(": ");
                text.append(message.as_str());
                text
            },
        }
    }
}

} // verus!
