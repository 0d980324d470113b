//! The virtual machines of one fork forest and the pages they own.

use vstd::prelude::*;
use vstd::string::StringExecFns;
#[allow(unused_imports)]
use vstd::string::StringSliceAdditionalSpecFns;

use crate::cache::store::CacheError;
use crate::census::Census;
#[allow(unused_imports)]
use crate::census::{held, held_twice, lemma_held, lemma_held_twice};
use crate::fork::pages::{PageBranch, PageError};
#[allow(unused_imports)]
use crate::fork::pages::{
    byte_at, full_pages, page_ids, pages_written, touched, write_result, written, PageKey, PageView,
    Pages, PAGE_SIZE,
};
use crate::io::IoError;
use crate::ordered::{Key, OrdMap, OrdSet, Position};
use crate::text::append_decimal;
#[allow(unused_imports)]
use crate::text::decimal;

verus! {

/// Stable identity of one VM in a fork forest.
#[derive(Clone, Copy, Debug, Eq, Ord, PartialEq, PartialOrd, Structural)]
pub struct VmId(u64);

impl VmId {
    /// The number behind the identity.
    pub closed spec fn number(self) -> u64 {
        self.0
    }
}

/// Physical-page accounting for one address space kind.
#[derive(Clone, Copy, Debug, Eq, PartialEq, Structural)]
pub struct SpaceAccounting {
    pub resident_pages: usize,
    pub shared_pages: usize,
}

/// Physical pages reachable by all live VMs in a fork forest.
#[derive(Clone, Copy, Debug, Eq, PartialEq, Structural)]
pub struct PageAccounting {
    pub memory: SpaceAccounting,
    pub filesystem: SpaceAccounting,
}

/// Failure of an operation on a fork forest.
#[derive(Debug)]
pub enum Error {
    VmNotFound(VmId),
    RangeOverflow,
    PageIdOverflow,
    Io(IoError),
    Cache(CacheError),
}

/// The forest's error for a page operation's.
pub open spec fn page_error(error: PageError) -> Error {
    match error {
        PageError::RangeOverflow => Error::RangeOverflow,
        PageError::PageIdOverflow => Error::PageIdOverflow,
    }
}

fn lift(error: PageError) -> (e: Error)
    ensures
        e == page_error(error),
{
    match error {
        PageError::RangeOverflow => Error::RangeOverflow,
        PageError::PageIdOverflow => Error::PageIdOverflow,
    }
}

/// The pages of one VM.
#[derive(Debug)]
pub struct VmState {
    memory: PageBranch,
    filesystem: PageBranch,
}

/// What one VM owns in one address space.
#[verifier::ext_equal]
pub struct SpaceView {
    /// The pages that the VM sees.
    pub pages: Pages,
    /// The identities of the pages that the VM keeps alive.
    pub retained: Set<u64>,
    /// The pages written since the last fork.
    pub own: Pages,
    /// The identities that the generation below those pages keeps alive.
    pub sealed: Set<u64>,
}

impl SpaceView {
    /// A space in which nothing was ever written.
    pub open spec fn empty() -> Self {
        SpaceView { pages: Map::empty(), retained: Set::empty(), own: Map::empty(), sealed: Set::empty() }
    }

    /// The space once a fork has sealed it.
    pub open spec fn forked(self) -> Self {
        SpaceView { own: Map::empty(), sealed: self.retained, ..self }
    }

    /// The space after a write that takes page identities from `next` on.
    pub open spec fn after_write(self, name: Seq<u8>, offset: int, bytes: Seq<u8>, next: int) -> Self {
        let done = pages_written(offset, bytes.len() as int, next);
        let own = written(self.own, self.pages, name, offset, bytes, next, done);
        SpaceView {
            pages: self.pages.union_prefer_right(own),
            retained: self.sealed + page_ids(own),
            own,
            sealed: self.sealed,
        }
    }

    /// The byte at `address` of the named space.
    pub open spec fn byte(self, name: Seq<u8>, address: int) -> u8 {
        byte_at(self.pages, name, address)
    }

    /// What a read of `len` bytes gives.
    pub open spec fn read(self, name: Seq<u8>, address: int, len: nat) -> Seq<u8> {
        Seq::new(len, |i: int| self.byte(name, address + i))
    }

    pub open spec fn wf(self) -> bool {
        &&& full_pages(self.pages)
        &&& self.retained == self.sealed + page_ids(self.own)
        &&& forall|k: PageKey| #[trigger] self.own.contains_key(k) ==> self.pages.contains_key(k) && self.pages[k] == self.own[k]
        &&& forall|k: PageKey| #[trigger] self.pages.contains_key(k) && !self.own.contains_key(k) ==> self.sealed.contains(self.pages[k].id)
    }
}

/// What one VM owns.
#[verifier::ext_equal]
pub struct VmView {
    pub memory: SpaceView,
    pub filesystem: SpaceView,
}

impl VmView {
    pub open spec fn empty() -> Self {
        VmView { memory: SpaceView::empty(), filesystem: SpaceView::empty() }
    }

    /// The VM once a fork has sealed both its spaces.
    pub open spec fn forked(self) -> Self {
        VmView { memory: self.memory.forked(), filesystem: self.filesystem.forked() }
    }

    /// The space of the given kind.
    pub open spec fn space(self, kind: Space) -> SpaceView {
        match kind {
            Space::Memory => self.memory,
            Space::Filesystem => self.filesystem,
        }
    }
}

/// The two address spaces of a VM.
pub enum Space {
    Memory,
    Filesystem,
}

/// The VMs of a forest, and the identities that come next.
#[verifier::ext_equal]
pub struct ForestView {
    pub next_vm: u64,
    pub next_page: u64,
    pub vms: Map<VmId, VmView>,
}

/// Whether pages with one identity are one page: under one key, with the same contents.
pub open spec fn agree(a: Pages, b: Pages) -> bool {
    forall|j: PageKey, k: PageKey|
        a.contains_key(j) && b.contains_key(k) && (#[trigger] a[j]).id == (#[trigger] b[k]).id ==> j == k && a[j].bytes == b[k].bytes
}

impl ForestView {
    /// The identities that some VM keeps alive in the given space.
    pub open spec fn resident(self, kind: Space) -> Set<u64> {
        Set::new(|id: u64| exists|vm: VmId| self.vms.contains_key(vm) && (#[trigger] self.vms[vm]).space(kind).retained.contains(id))
    }

    /// The identities of the pages that more than one VM sees in the given space.
    pub open spec fn shared(self, kind: Space) -> Set<u64> {
        Set::new(
            |id: u64|
                exists|a: VmId, b: VmId|
                    a != b && self.vms.contains_key(a) && self.vms.contains_key(b) && page_ids((#[trigger] self.vms[a]).space(kind).pages).contains(id) && page_ids(
                        (#[trigger] self.vms[b]).space(kind).pages,
                    ).contains(id),
        )
    }

    pub open spec fn accounted(self, kind: Space, accounting: SpaceAccounting) -> bool {
        &&& self.resident(kind).finite()
        &&& self.shared(kind).finite()
        &&& accounting.resident_pages == self.resident(kind).len()
        &&& accounting.shared_pages == self.shared(kind).len()
    }

    pub open spec fn wf(self) -> bool {
        &&& forall|vm: VmId| #[trigger] self.vms.contains_key(vm) ==> vm.number() < self.next_vm
        &&& forall|vm: VmId| #[trigger] self.vms.contains_key(vm) ==> self.vms[vm].memory.wf() && self.vms[vm].filesystem.wf()
        &&& forall|vm: VmId, id: u64| #![trigger self.vms[vm].memory.retained.contains(id)]
            self.vms.contains_key(vm) && self.vms[vm].memory.retained.contains(id) ==> id < self.next_page
        &&& forall|vm: VmId, id: u64| #![trigger self.vms[vm].filesystem.retained.contains(id)]
            self.vms.contains_key(vm) && self.vms[vm].filesystem.retained.contains(id) ==> id < self.next_page
        &&& forall|a: VmId, b: VmId| #![trigger self.vms[a], self.vms[b]]
            self.vms.contains_key(a) && self.vms.contains_key(b) ==> agree(self.vms[a].memory.pages, self.vms[b].memory.pages) && agree(
                self.vms[a].filesystem.pages,
                self.vms[b].filesystem.pages,
            )
    }

    /// The forest with an empty VM added.
    pub open spec fn created(self, id: VmId) -> Self {
        ForestView { next_vm: (self.next_vm + 1) as u64, vms: self.vms.insert(id, VmView::empty()), ..self }
    }

    /// The forest once `source` has been forked into `child`.
    pub open spec fn forked(self, source: VmId, child: VmId) -> Self {
        let vm = self.vms[source].forked();
        ForestView { next_vm: (self.next_vm + 1) as u64, vms: self.vms.insert(source, vm).insert(child, vm), ..self }
    }

    pub open spec fn removed(self, vm: VmId) -> Self {
        ForestView { vms: self.vms.remove(vm), ..self }
    }

    /// The forest after `vm` has written to its filesystem.
    pub open spec fn after_file_write(self, vm: VmId, name: Seq<u8>, offset: int, bytes: Seq<u8>) -> Self {
        let next = self.next_page as int;
        let state = VmView { filesystem: self.vms[vm].filesystem.after_write(name, offset, bytes, next), ..self.vms[vm] };
        ForestView {
            next_page: (next + pages_written(offset, bytes.len() as int, next)) as u64,
            vms: self.vms.insert(vm, state),
            ..self
        }
    }

    /// The forest after `vm` has written to its memory.
    pub open spec fn after_memory_write(self, vm: VmId, address: int, bytes: Seq<u8>) -> Self {
        let next = self.next_page as int;
        let state = VmView { memory: self.vms[vm].memory.after_write(memory_name(), address, bytes, next), ..self.vms[vm] };
        ForestView {
            next_page: (next + pages_written(address, bytes.len() as int, next)) as u64,
            vms: self.vms.insert(vm, state),
            ..self
        }
    }

    /// How a write of `len` bytes at `offset` by `vm` ends.
    pub open spec fn write_ends(self, vm: VmId, offset: int, len: int) -> Result<(), Error> {
        if !self.vms.contains_key(vm) {
            Err(Error::VmNotFound(vm))
        } else {
            match write_result(offset, len, self.next_page as int) {
                Ok(done) => Ok(done),
                Err(error) => Err(page_error(error)),
            }
        }
    }
}

/// The name under which guest memory is kept.
pub open spec fn memory_name() -> Seq<u8> {
    "".spec_bytes()
}

spec fn space_of(branch: PageBranch) -> SpaceView {
    SpaceView { pages: branch.pages(), retained: branch.retained(), own: branch.own(), sealed: branch.shared_ids() }
}

impl View for VmState {
    type V = VmView;

    closed spec fn view(&self) -> VmView {
        VmView { memory: space_of(self.memory), filesystem: space_of(self.filesystem) }
    }
}

impl View for VmId {
    type V = VmId;

    open spec fn view(&self) -> VmId {
        *self
    }
}

impl Key for VmId {
    closed spec fn less(a: VmId, b: VmId) -> bool {
        a.0 < b.0
    }

    proof fn less_total(a: VmId, b: VmId) {
    }

    proof fn less_irreflexive(a: VmId) {
    }

    proof fn less_transitive(a: VmId, b: VmId, c: VmId) {
    }

    fn position(&self, other: &VmId) -> (p: Position) {
        self.0.position(&other.0)
    }

    fn duplicate(&self) -> (copy: VmId) {
        *self
    }
}

/// Owns the VMs and immutable generations in one fork forest.
pub struct ForkForest {
    next_vm: u64,
    next_page: u64,
    vms: OrdMap<VmId, VmState>,
}

impl View for ForkForest {
    type V = ForestView;

    closed spec fn view(&self) -> ForestView {
        ForestView { next_vm: self.next_vm, next_page: self.next_page, vms: self.vms@.map_values(|vm: VmState| vm@) }
    }
}

impl ForkForest {
    pub open spec fn wf(self) -> bool {
        self@.wf()
    }

    pub fn new() -> (forest: Self)
        ensures
            forest.wf(),
            forest@ == (ForestView { next_vm: 1, next_page: 1, vms: Map::empty() }),
    {
        let forest = ForkForest { next_vm: 1, next_page: 1, vms: OrdMap::new() };
        assert(forest@.vms =~= Map::<VmId, VmView>::empty());
        forest
    }

    /// Adds a VM with empty memory and an empty filesystem.
    pub fn create_vm(&mut self) -> (id: VmId)
        requires
            old(self).wf(),
            old(self)@.next_vm < u64::MAX,
        ensures
            final(self).wf(),
            id.number() == old(self)@.next_vm,
            !old(self)@.vms.contains_key(id),
            final(self)@ == old(self)@.created(id),
    {
        let ghost before = self@;
        let id = VmId(self.next_vm);
        self.next_vm = self.next_vm + 1;
        let state = VmState { memory: PageBranch::empty(), filesystem: PageBranch::empty() };
        proof {
            lemma_empty_space(state.memory);
            lemma_empty_space(state.filesystem);
        }
        self.vms.insert(id, state);
        assert(self@.vms =~= before.vms.insert(id, VmView::empty()));
        proof {
            lemma_created_wf(before, id);
        }
        id
    }

    /// Makes a VM whose memory and filesystem are those of `source` at this point.
    pub fn fork_vm(&mut self, source: VmId) -> (r: Result<VmId, Error>)
        requires
            old(self).wf(),
            old(self)@.vms.contains_key(source) ==> old(self)@.next_vm < u64::MAX,
        ensures
            final(self).wf(),
            match r {
                Ok(child) => {
                    &&& old(self)@.vms.contains_key(source)
                    &&& child.number() == old(self)@.next_vm
                    &&& !old(self)@.vms.contains_key(child)
                    &&& final(self)@ == old(self)@.forked(source, child)
                },
                Err(error) => {
                    &&& !old(self)@.vms.contains_key(source)
                    &&& error == Error::VmNotFound(source)
                    &&& final(self)@ == old(self)@
                },
            },
    {
        let ghost before = self@;
        let mut source_vm = match self.vms.remove(&source) {
            Some(vm) => vm,
            None => {
                return Err(Error::VmNotFound(source));
            },
        };
        let ghost was = source_vm@;
        assert(before.vms.contains_key(source) && was == before.vms[source]);
        assert(before.vms[source].memory.wf() && before.vms[source].filesystem.wf());
        let memory = source_vm.memory.fork();
        let filesystem = source_vm.filesystem.fork();
        let child_vm = VmState { memory, filesystem };
        proof {
            lemma_forked_space(source_vm.memory, was.memory);
            lemma_forked_space(source_vm.filesystem, was.filesystem);
            lemma_forked_space(child_vm.memory, was.memory);
            lemma_forked_space(child_vm.filesystem, was.filesystem);
        }
        self.vms.insert(source, source_vm);
        let child = VmId(self.next_vm);
        self.next_vm = self.next_vm + 1;
        self.vms.insert(child, child_vm);
        assert(self@.vms =~= before.forked(source, child).vms);
        proof {
            lemma_forked_wf(before, source, child);
        }
        Ok(child)
    }

    /// Takes a VM out of the forest.
    pub fn remove_vm(&mut self, vm: VmId) -> (r: Result<(), Error>)
        requires
            old(self).wf(),
        ensures
            final(self).wf(),
            r == (if old(self)@.vms.contains_key(vm) {
                Ok(())
            } else {
                Err(Error::VmNotFound(vm))
            }),
            final(self)@ == old(self)@.removed(vm),
    {
        let ghost before = self@;
        let removed = self.vms.remove(&vm);
        assert(self@.vms =~= before.vms.remove(vm));
        match removed {
            Some(_) => Ok(()),
            None => Err(Error::VmNotFound(vm)),
        }
    }

    /// Writes to a file of the VM.
    pub fn write_file(&mut self, vm: VmId, path: &str, offset: u64, bytes: &[u8]) -> (r: Result<(), Error>)
        requires
            old(self).wf(),
        ensures
            final(self).wf(),
            r == old(self)@.write_ends(vm, offset as int, bytes@.len() as int),
            final(self)@ == (if old(self)@.vms.contains_key(vm) {
                old(self)@.after_file_write(vm, path.spec_bytes(), offset as int, bytes@)
            } else {
                old(self)@
            }),
    {
        let ghost before = self@;
        let mut state = match self.vms.remove(&vm) {
            Some(state) => state,
            None => {
                return Err(Error::VmNotFound(vm));
            },
        };
        let ghost was = state@;
        let ghost next = self.next_page as int;
        assert(was == before.vms[vm]);
        assert(before.vms[vm].filesystem.wf());
        let r = state.filesystem.write(&mut self.next_page, path, offset, bytes);
        proof {
            lemma_written_space(was.filesystem, state.filesystem, path.spec_bytes(), offset as int, bytes@, next);
        }
        self.vms.insert(vm, state);
        assert(self@.vms =~= before.after_file_write(vm, path.spec_bytes(), offset as int, bytes@).vms);
        proof {
            lemma_file_write_wf(before, vm, path.spec_bytes(), offset as int, bytes@);
        }
        match r {
            Ok(done) => Ok(done),
            Err(error) => Err(lift(error)),
        }
    }

    /// Reads from a file of the VM; what was never written reads as zero.
    pub fn read_file(&self, vm: VmId, path: &str, offset: u64, len: usize) -> (r: Result<Vec<u8>, Error>)
        requires
            self.wf(),
        ensures
            match r {
                Ok(bytes) => {
                    &&& self@.vms.contains_key(vm)
                    &&& offset + len <= u64::MAX
                    &&& bytes@ == self@.vms[vm].filesystem.read(path.spec_bytes(), offset as int, len as nat)
                },
                Err(error) => error == (if !self@.vms.contains_key(vm) {
                    Error::VmNotFound(vm)
                } else {
                    Error::RangeOverflow
                }) && (self@.vms.contains_key(vm) ==> offset + len > u64::MAX),
            },
    {
        match self.vms.get(&vm) {
            Some(state) => {
                assert(self@.vms[vm] == state@);
                assert(self@.vms[vm].filesystem.wf());
                match state.filesystem.read(path, offset, len) {
                    Ok(bytes) => {
                        assert(bytes@ =~= self@.vms[vm].filesystem.read(path.spec_bytes(), offset as int, len as nat));
                        Ok(bytes)
                    },
                    Err(error) => Err(lift(error)),
                }
            },
            None => Err(Error::VmNotFound(vm)),
        }
    }

    /// Writes to the VM's memory.
    pub fn write_memory(&mut self, vm: VmId, guest_address: u64, bytes: &[u8]) -> (r: Result<(), Error>)
        requires
            old(self).wf(),
        ensures
            final(self).wf(),
            r == old(self)@.write_ends(vm, guest_address as int, bytes@.len() as int),
            final(self)@ == (if old(self)@.vms.contains_key(vm) {
                old(self)@.after_memory_write(vm, guest_address as int, bytes@)
            } else {
                old(self)@
            }),
    {
        let ghost before = self@;
        let mut state = match self.vms.remove(&vm) {
            Some(state) => state,
            None => {
                return Err(Error::VmNotFound(vm));
            },
        };
        let ghost was = state@;
        let ghost next = self.next_page as int;
        assert(was == before.vms[vm]);
        assert(before.vms[vm].memory.wf());
        let r = state.memory.write(&mut self.next_page, "", guest_address, bytes);
        proof {
            lemma_written_space(was.memory, state.memory, memory_name(), guest_address as int, bytes@, next);
        }
        self.vms.insert(vm, state);
        assert(self@.vms =~= before.after_memory_write(vm, guest_address as int, bytes@).vms);
        proof {
            lemma_memory_write_wf(before, vm, guest_address as int, bytes@);
        }
        match r {
            Ok(done) => Ok(done),
            Err(error) => Err(lift(error)),
        }
    }

    /// Counts the physical pages behind all VMs.
    pub fn page_accounting(&self) -> (accounting: PageAccounting)
        requires
            self.wf(),
        ensures
            self@.accounted(Space::Memory, accounting.memory),
            self@.accounted(Space::Filesystem, accounting.filesystem),
    {
        let n: usize = self.vms.len();
        let ghost keys = self.vms.keys();
        let mut memories: Vec<&PageBranch> = Vec::new();
        let mut filesystems: Vec<&PageBranch> = Vec::new();
        let mut i: usize = 0;
        while i < n
            invariant
                i <= n,
                n == self.vms.keys().len(),
                keys == self.vms.keys(),
                memories@.len() == i,
                filesystems@.len() == i,
                forall|j: int| 0 <= j < i ==> space_of(*#[trigger] memories@[j]) == self@.vms[keys[j]].memory,
                forall|j: int| 0 <= j < i ==> space_of(*#[trigger] filesystems@[j]) == self@.vms[keys[j]].filesystem,
            decreases n - i,
        {
            let state = self.vms.value_at(i);
            assert(self@.vms[keys[i as int]] == state@);
            memories.push(&state.memory);
            filesystems.push(&state.filesystem);
            i += 1;
        }
        let memory = account_pages(&memories);
        let filesystem = account_pages(&filesystems);
        proof {
            lemma_accounted(self@, Space::Memory, keys, memories@.map_values(|b: &PageBranch| b.retained()), memories@.map_values(|b: &PageBranch| page_ids(b.pages())));
            lemma_accounted(self@, Space::Filesystem, keys, filesystems@.map_values(|b: &PageBranch| b.retained()), filesystems@.map_values(|b: &PageBranch| page_ids(b.pages())));
        }
        PageAccounting { memory, filesystem }
    }

    /// Reads from the VM's memory; what was never written reads as zero.
    pub fn read_memory(&self, vm: VmId, guest_address: u64, len: usize) -> (r: Result<Vec<u8>, Error>)
        requires
            self.wf(),
        ensures
            match r {
                Ok(bytes) => {
                    &&& self@.vms.contains_key(vm)
                    &&& guest_address + len <= u64::MAX
                    &&& bytes@ == self@.vms[vm].memory.read(memory_name(), guest_address as int, len as nat)
                },
                Err(error) => error == (if !self@.vms.contains_key(vm) {
                    Error::VmNotFound(vm)
                } else {
                    Error::RangeOverflow
                }) && (self@.vms.contains_key(vm) ==> guest_address + len > u64::MAX),
            },
    {
        match self.vms.get(&vm) {
            Some(state) => {
                assert(self@.vms[vm] == state@);
                assert(self@.vms[vm].memory.wf());
                match state.memory.read("", guest_address, len) {
                    Ok(bytes) => {
                        assert(bytes@ =~= self@.vms[vm].memory.read(memory_name(), guest_address as int, len as nat));
                        Ok(bytes)
                    },
                    Err(error) => Err(lift(error)),
                }
            },
            None => Err(Error::VmNotFound(vm)),
        }
    }
}

impl Default for ForkForest {
    fn default() -> (forest: Self)
        ensures
            forest.wf(),
            forest@ == (ForestView { next_vm: 1, next_page: 1, vms: Map::empty() }),
    {
        ForkForest::new()
    }
}

/// Counts the physical pages behind the given branches: those that some branch keeps alive, and
/// those that more than one of them sees.
pub fn account_pages(branches: &Vec<&PageBranch>) -> (accounting: SpaceAccounting)
    ensures
        held(branches@.map_values(|b: &PageBranch| b.retained())).finite(),
        accounting.resident_pages == held(branches@.map_values(|b: &PageBranch| b.retained())).len(),
        held_twice(branches@.map_values(|b: &PageBranch| page_ids(b.pages()))).finite(),
        accounting.shared_pages == held_twice(branches@.map_values(|b: &PageBranch| page_ids(b.pages()))).len(),
{
    let mut resident: OrdSet<u64> = OrdSet::new();
    let mut references = Census::new();
    let n: usize = branches.len();
    let ghost kept = branches@.map_values(|b: &PageBranch| b.retained());
    let ghost seen = branches@.map_values(|b: &PageBranch| page_ids(b.pages()));
    assert(held(kept.take(0)) =~= Set::<u64>::empty());
    assert(seen.take(0) =~= Seq::<Set<u64>>::empty());
    let mut i: usize = 0;
    while i < n
        invariant
            i <= n,
            n == branches@.len(),
            kept == branches@.map_values(|b: &PageBranch| b.retained()),
            seen == branches@.map_values(|b: &PageBranch| page_ids(b.pages())),
            resident@ == held(kept.take(i as int)),
            references.wf(),
            references.sets() == seen.take(i as int),
        decreases n - i,
    {
        let branch: &PageBranch = branches[i];
        branch.add_retained_page_ids(&mut resident);
        references.count_set(&branch.visible_ids());
        assert(kept.take(i + 1).drop_last() =~= kept.take(i as int));
        assert(kept.take(i + 1).last() == branch.retained());
        assert(resident@ =~= held(kept.take(i + 1)));
        assert(seen.take(i + 1) =~= seen.take(i as int).push(page_ids(branch.pages())));
        i += 1;
    }
    assert(kept.take(n as int) =~= kept);
    assert(seen.take(n as int) =~= seen);
    SpaceAccounting { resident_pages: resident.len(), shared_pages: references.shared() }
}

proof fn lemma_accounted(v: ForestView, kind: Space, keys: Seq<VmId>, kept: Seq<Set<u64>>, seen: Seq<Set<u64>>)
    requires
        keys.no_duplicates(),
        forall|vm: VmId| #[trigger] v.vms.contains_key(vm) <==> keys.contains(vm),
        kept.len() == keys.len(),
        seen.len() == keys.len(),
        forall|i: int| 0 <= i < keys.len() ==> #[trigger] kept[i] == v.vms[keys[i]].space(kind).retained,
        forall|i: int| 0 <= i < keys.len() ==> #[trigger] seen[i] == page_ids(v.vms[keys[i]].space(kind).pages),
    ensures
        held(kept) == v.resident(kind),
        held_twice(seen) == v.shared(kind),
{
    assert forall|id: u64| held(kept).contains(id) <==> v.resident(kind).contains(id) by {
        lemma_held(kept, id);
        if held(kept).contains(id) {
            let i = choose|i: int| 0 <= i < kept.len() && (#[trigger] kept[i]).contains(id);
            assert(keys.contains(keys[i]));
            assert(v.vms.contains_key(keys[i]) && v.vms[keys[i]].space(kind).retained.contains(id));
        }
        if v.resident(kind).contains(id) {
            let vm = choose|vm: VmId| v.vms.contains_key(vm) && (#[trigger] v.vms[vm]).space(kind).retained.contains(id);
            let i = choose|i: int| 0 <= i < keys.len() && keys[i] == vm;
            assert(kept[i].contains(id));
        }
    }
    assert(held(kept) =~= v.resident(kind));
    assert forall|id: u64| held_twice(seen).contains(id) <==> v.shared(kind).contains(id) by {
        lemma_held_twice(seen, id);
        if held_twice(seen).contains(id) {
            let (i, j) = choose|i: int, j: int| 0 <= i < j < seen.len() && (#[trigger] seen[i]).contains(id) && (#[trigger] seen[j]).contains(id);
            assert(keys.contains(keys[i]) && keys.contains(keys[j]));
            assert(keys[i] != keys[j]);
            assert(page_ids(v.vms[keys[i]].space(kind).pages).contains(id) && page_ids(v.vms[keys[j]].space(kind).pages).contains(id));
        }
        if v.shared(kind).contains(id) {
            let (a, b) = choose|a: VmId, b: VmId|
                a != b && v.vms.contains_key(a) && v.vms.contains_key(b) && page_ids((#[trigger] v.vms[a]).space(kind).pages).contains(id) && page_ids(
                    (#[trigger] v.vms[b]).space(kind).pages,
                ).contains(id);
            let i = choose|i: int| 0 <= i < keys.len() && keys[i] == a;
            let j = choose|j: int| 0 <= j < keys.len() && keys[j] == b;
            assert(seen[i].contains(id) && seen[j].contains(id));
            if j < i {
                assert(0 <= j < i < seen.len());
            }
        }
    }
    assert(held_twice(seen) =~= v.shared(kind));
}

proof fn lemma_empty_space(branch: PageBranch)
    requires
        branch.own() == Map::<PageKey, PageView>::empty(),
        branch.shared() == Map::<PageKey, PageView>::empty(),
        branch.shared_ids() == Set::<u64>::empty(),
    ensures
        space_of(branch) == SpaceView::empty(),
{
    assert(branch.pages() =~= Map::<PageKey, PageView>::empty());
    assert(branch.retained() =~= Set::<u64>::empty());
}

proof fn lemma_forked_space(branch: PageBranch, was: SpaceView)
    requires
        branch.own() == Map::<PageKey, PageView>::empty(),
        branch.shared() == was.pages,
        branch.shared_ids() == was.retained,
    ensures
        space_of(branch) == was.forked(),
{
    assert(branch.pages() =~= was.pages);
    assert(branch.retained() =~= was.retained);
}

proof fn lemma_written_space(was: SpaceView, branch: PageBranch, name: Seq<u8>, offset: int, bytes: Seq<u8>, next: int)
    requires
        was.pages == branch.shared().union_prefer_right(was.own),
        was.sealed == branch.shared_ids(),
        branch.own() == written(was.own, was.pages, name, offset, bytes, next, pages_written(offset, bytes.len() as int, next)),
    ensures
        space_of(branch) == was.after_write(name, offset, bytes, next),
{
    assert(branch.pages() =~= was.pages.union_prefer_right(branch.own()));
}

pub proof fn lemma_created_wf(v: ForestView, id: VmId)
    requires
        v.wf(),
        v.next_vm < u64::MAX,
        id.number() == v.next_vm,
    ensures
        v.created(id).wf(),
{
    let w = v.created(id);
    assert(SpaceView::empty().wf()) by {
        assert(page_ids(Map::empty()) =~= Set::<u64>::empty());
        assert(SpaceView::empty().retained =~= Set::<u64>::empty() + page_ids(Map::empty()));
    }
}

pub proof fn lemma_forked_wf(v: ForestView, source: VmId, child: VmId)
    requires
        v.wf(),
        v.vms.contains_key(source),
        v.next_vm < u64::MAX,
        child.number() == v.next_vm,
    ensures
        v.forked(source, child).wf(),
{
    let w = v.forked(source, child);
    let vm = v.vms[source];
    lemma_forked_space_wf(vm.memory);
    lemma_forked_space_wf(vm.filesystem);
    assert forall|a: VmId, b: VmId| #![trigger w.vms[a], w.vms[b]] w.vms.contains_key(a) && w.vms.contains_key(b) implies agree(
        w.vms[a].memory.pages,
        w.vms[b].memory.pages,
    ) && agree(w.vms[a].filesystem.pages, w.vms[b].filesystem.pages) by {
        let oa = if a == child { source } else { a };
        let ob = if b == child { source } else { b };
        assert(v.vms.contains_key(oa) && v.vms.contains_key(ob));
        assert(agree(v.vms[oa].memory.pages, v.vms[ob].memory.pages));
    }
    assert forall|x: VmId, id: u64| #![trigger w.vms[x].memory.retained.contains(id)] w.vms.contains_key(x) && w.vms[x].memory.retained.contains(id) implies id < w.next_page by {
        let o = if x == child { source } else { x };
        assert(v.vms[o].memory.retained.contains(id));
    }
    assert forall|x: VmId, id: u64| #![trigger w.vms[x].filesystem.retained.contains(id)] w.vms.contains_key(x) && w.vms[x].filesystem.retained.contains(id) implies id < w.next_page by {
        let o = if x == child { source } else { x };
        assert(v.vms[o].filesystem.retained.contains(id));
    }
}

proof fn lemma_forked_space_wf(s: SpaceView)
    requires
        s.wf(),
    ensures
        s.forked().wf(),
{
    let f = s.forked();
    assert(page_ids(f.own) =~= Set::<u64>::empty());
    assert(f.retained =~= f.sealed + page_ids(f.own));
}

proof fn lemma_written_space_wf(s: SpaceView, name: Seq<u8>, offset: int, bytes: Seq<u8>, next: int)
    requires
        s.wf(),
        0 <= offset,
        0 <= next <= u64::MAX,
        forall|id: u64| s.retained.contains(id) ==> id < next,
    ensures
        s.after_write(name, offset, bytes, next).wf(),
        forall|id: u64| #[trigger] s.after_write(name, offset, bytes, next).retained.contains(id) ==> id < next + pages_written(offset, bytes.len() as int, next),
{
    let done = pages_written(offset, bytes.len() as int, next);
    let w = s.after_write(name, offset, bytes, next);
    assert forall|k: PageKey| #[trigger] w.own.contains_key(k) implies w.own[k].id < next + done && w.own[k].bytes.len() == PAGE_SIZE by {
        if !touched(k, name, offset, done) {
            assert(s.own.contains_key(k) && s.own[k] == w.own[k]);
            assert(page_ids(s.own).contains(s.own[k].id));
            assert(s.retained.contains(s.own[k].id));
            assert(s.pages.contains_key(k) && s.pages[k] == s.own[k]);
        }
    }
    assert forall|k: PageKey| #[trigger] w.pages.contains_key(k) implies w.pages[k].bytes.len() == PAGE_SIZE by {
        if !w.own.contains_key(k) {
            assert(s.pages.contains_key(k));
        }
    }
    assert forall|k: PageKey| #[trigger] w.pages.contains_key(k) && !w.own.contains_key(k) implies w.sealed.contains(w.pages[k].id) by {
        assert(s.pages.contains_key(k) && !s.own.contains_key(k));
    }
    assert forall|id: u64| #[trigger] w.retained.contains(id) implies id < next + done by {
        if page_ids(w.own).contains(id) {
            let k = choose|k: PageKey| w.own.contains_key(k) && (#[trigger] w.own[k]).id == id;
        } else {
            assert(s.retained.contains(id));
        }
    }
}

/// The pages that a VM sees are among those that it keeps alive.
pub proof fn lemma_visible_is_retained(s: SpaceView, k: PageKey)
    requires
        s.wf(),
        s.pages.contains_key(k),
    ensures
        s.retained.contains(s.pages[k].id),
{
    if s.own.contains_key(k) {
        assert(s.own[k] == s.pages[k]);
        assert(page_ids(s.own).contains(s.pages[k].id));
    }
}

proof fn lemma_write_agrees(s: SpaceView, other: SpaceView, name: Seq<u8>, offset: int, bytes: Seq<u8>, next: int)
    requires
        s.wf(),
        other.wf(),
        0 <= offset,
        0 <= next <= u64::MAX,
        forall|id: u64| s.retained.contains(id) ==> id < next,
        forall|id: u64| other.retained.contains(id) ==> id < next,
        agree(s.pages, other.pages),
        agree(other.pages, s.pages),
        agree(s.pages, s.pages),
    ensures
        agree(s.after_write(name, offset, bytes, next).pages, other.pages),
        agree(other.pages, s.after_write(name, offset, bytes, next).pages),
        agree(s.after_write(name, offset, bytes, next).pages, s.after_write(name, offset, bytes, next).pages),
{
    let done = pages_written(offset, bytes.len() as int, next);
    let w = s.after_write(name, offset, bytes, next);
    assert forall|k: PageKey| w.pages.contains_key(k) implies (if touched(k, name, offset, done) {
        #[trigger] w.pages[k].id == next + k.1 - offset / 4096
    } else {
        s.pages.contains_key(k) && w.pages[k] == s.pages[k] && w.pages[k].id < next
    }) by {
        if !touched(k, name, offset, done) {
            if s.own.contains_key(k) {
                assert(s.pages[k] == s.own[k]);
            }
            lemma_visible_is_retained(s, k);
        }
    }
    assert forall|k: PageKey| other.pages.contains_key(k) implies (#[trigger] other.pages[k]).id < next by {
        lemma_visible_is_retained(other, k);
    }
}

pub proof fn lemma_file_write_wf(v: ForestView, vm: VmId, name: Seq<u8>, offset: int, bytes: Seq<u8>)
    requires
        v.wf(),
        v.vms.contains_key(vm),
        0 <= offset,
    ensures
        v.after_file_write(vm, name, offset, bytes).wf(),
{
    let next = v.next_page as int;
    let w = v.after_file_write(vm, name, offset, bytes);
    let s = v.vms[vm].filesystem;
    lemma_written_space_wf(s, name, offset, bytes, next);
    assert forall|a: VmId, b: VmId| #![trigger w.vms[a], w.vms[b]] w.vms.contains_key(a) && w.vms.contains_key(b) implies agree(
        w.vms[a].memory.pages,
        w.vms[b].memory.pages,
    ) && agree(w.vms[a].filesystem.pages, w.vms[b].filesystem.pages) by {
        assert(agree(v.vms[a].memory.pages, v.vms[b].memory.pages));
        assert(agree(v.vms[vm].filesystem.pages, v.vms[vm].filesystem.pages));
        assert(agree(v.vms[vm].filesystem.pages, v.vms[b].filesystem.pages));
        assert(agree(v.vms[a].filesystem.pages, v.vms[vm].filesystem.pages));
        assert(agree(v.vms[b].filesystem.pages, v.vms[vm].filesystem.pages));
        assert(agree(v.vms[vm].filesystem.pages, v.vms[a].filesystem.pages));
        if a == vm {
            lemma_write_agrees(s, v.vms[b].filesystem, name, offset, bytes, next);
        } else if b == vm {
            lemma_write_agrees(s, v.vms[a].filesystem, name, offset, bytes, next);
        }
    }
    assert forall|x: VmId, id: u64| #![trigger w.vms[x].memory.retained.contains(id)] w.vms.contains_key(x) && w.vms[x].memory.retained.contains(id) implies id < w.next_page by {
        assert(v.vms[x].memory.retained.contains(id));
    }
    assert forall|x: VmId, id: u64| #![trigger w.vms[x].filesystem.retained.contains(id)] w.vms.contains_key(x) && w.vms[x].filesystem.retained.contains(id) implies id < w.next_page by {
        if x != vm {
            assert(v.vms[x].filesystem.retained.contains(id));
        }
    }
}

pub proof fn lemma_memory_write_wf(v: ForestView, vm: VmId, address: int, bytes: Seq<u8>)
    requires
        v.wf(),
        v.vms.contains_key(vm),
        0 <= address,
    ensures
        v.after_memory_write(vm, address, bytes).wf(),
{
    let next = v.next_page as int;
    let name = memory_name();
    let w = v.after_memory_write(vm, address, bytes);
    let s = v.vms[vm].memory;
    lemma_written_space_wf(s, name, address, bytes, next);
    assert forall|a: VmId, b: VmId| #![trigger w.vms[a], w.vms[b]] w.vms.contains_key(a) && w.vms.contains_key(b) implies agree(
        w.vms[a].memory.pages,
        w.vms[b].memory.pages,
    ) && agree(w.vms[a].filesystem.pages, w.vms[b].filesystem.pages) by {
        assert(agree(v.vms[a].filesystem.pages, v.vms[b].filesystem.pages));
        assert(agree(v.vms[vm].memory.pages, v.vms[vm].memory.pages));
        assert(agree(v.vms[vm].memory.pages, v.vms[b].memory.pages));
        assert(agree(v.vms[a].memory.pages, v.vms[vm].memory.pages));
        assert(agree(v.vms[b].memory.pages, v.vms[vm].memory.pages));
        assert(agree(v.vms[vm].memory.pages, v.vms[a].memory.pages));
        if a == vm {
            lemma_write_agrees(s, v.vms[b].memory, name, address, bytes, next);
        } else if b == vm {
            lemma_write_agrees(s, v.vms[a].memory, name, address, bytes, next);
        }
    }
    assert forall|x: VmId, id: u64| #![trigger w.vms[x].memory.retained.contains(id)] w.vms.contains_key(x) && w.vms[x].memory.retained.contains(id) implies id < w.next_page by {
        if x != vm {
            assert(v.vms[x].memory.retained.contains(id));
        }
    }
    assert forall|x: VmId, id: u64| #![trigger w.vms[x].filesystem.retained.contains(id)] w.vms.contains_key(x) && w.vms[x].filesystem.retained.contains(id) implies id < w.next_page by {
        assert(v.vms[x].filesystem.retained.contains(id));
    }
}

impl Error {
    /// The error in words; `inner` is the text of the failure behind it, where it has one.
    pub fn message(&self, inner: &str) -> (text: String)
        ensures
            text@ == (match *self {
                Error::VmNotFound(vm) => "VM VmId("@ + decimal(vm.number() as nat) + ") does not exist"@,
                Error::RangeOverflow => "page range overflows the address space"@,
                Error::PageIdOverflow => "physical page identity space is exhausted"@,
                Error::Io(_) => inner@,
                Error::Cache(_) => inner@,
            }),
    {
        match self {
            Error::VmNotFound(vm) => {
                let mut text: String = "VM VmId(".to_owned();
                append_decimal(&mut text, vm.0);
                text.append(") does not exist");
                text
            },
            Error::RangeOverflow => "page range overflows the address space".to_owned(),
            Error::PageIdOverflow => "physical page identity space is exhausted".to_owned(),
            Error::Io(_) => inner.to_owned(),
            Error::Cache(_) => inner.to_owned(),
        }
    }
}

} // verus!
