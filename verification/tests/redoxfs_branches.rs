use std::cell::RefCell;
use std::collections::BTreeMap;
use std::io;
use std::io::{Read, Seek, SeekFrom, Write};
use std::rc::Rc;

use minidox::cache::shared::{CachePageAccounting, SharedPageCache};
use minidox::cache::store::{ForkableNodeStore, MapFlags, NodeId, NodeStore};
use minidox::fork::{Supervisor, VmId, PAGE_SIZE};
use minidox::io::IoError;
use minidox::redox::branch::{
    blocks_512, branch_state, directory_entries, DirectoryEntry, NodeMetadata, RedoxBranchState,
    RestoringLineage,
};
use minidox::redox::disk::{block_accounting, BlockAccounting, CowDisk};
use minidox::redox::durable::{
    next_durable_id, CheckpointStage, DiskAction, DurableCowDisk, DurableDiskState, ForkStage,
    RestoringDisk,
};
use minidox::redox::identity::{IdentityBranch, IdentitySource, RedoxPageIdentity};
use minidox::vmm::barrier::{Barrier, BarrierStage};
use minidox::vmm::checkpoint::{CapturedGuest, CheckpointStage as ForestStage};
use minidox::vmm::creation::CreateStage;
use minidox::vmm::devices::InProcessFilesystem;
use minidox::vmm::forking::{ForkStage as GuestForkStage, GuestFork};
use minidox::vmm::opening::{DurableBackend, ForestManifest, OpenStage, Opened, VmManifest};
use minidox::vmm::ram::{KvmGuestRam, RamAction, RamIds, RamPage, RAM_PAGE_SIZE};
use minidox::vmm::supervisor::{KvmForkAccounting, KvmSupervisor, KvmVmId, SupervisorError};
use minidox::vmm::virtiofs::VirtioFsBranch;
use redoxfs::{DiskIo, FileSystem, Node, TreePtr};

const PAGE: u64 = PAGE_SIZE as u64;

/// What all branches of one process draw from, and the files of durable ones.
struct World {
    next_block: u64,
    next_durable: u64,
    identities: IdentitySource,
    layers: BTreeMap<u64, Vec<u8>>,
    overlays: BTreeMap<u64, Vec<u8>>,
}

type Shared = Rc<RefCell<World>>;

fn world() -> Shared {
    Rc::new(RefCell::new(World {
        next_block: 1,
        next_durable: 1,
        identities: IdentitySource::new(),
        layers: BTreeMap::new(),
        overlays: BTreeMap::new(),
    }))
}

impl World {
    /// Performs an operation on the files; gives the number of the file that it made, if any.
    fn perform(&mut self, action: DiskAction) -> u64 {
        match action {
            DiskAction::LinkOverlay(overlay) => {
                let id = next_durable_id(&mut self.next_durable);
                let bytes = self.overlays[&overlay].clone();
                self.layers.insert(id, bytes);
                id
            }
            DiskAction::CreateOverlay | DiskAction::CreateChildOverlay => {
                let id = next_durable_id(&mut self.next_durable);
                self.overlays.insert(id, Vec::new());
                id
            }
            DiskAction::SyncLayer(layer) => {
                assert!(self.layers.contains_key(&layer));
                0
            }
            _ => 0,
        }
    }
}

struct BranchDisk {
    disk: CowDisk,
    position: u64,
    world: Shared,
}

impl BranchDisk {
    fn new(disk: CowDisk, world: &Shared) -> Self {
        BranchDisk {
            disk,
            position: 0,
            world: Rc::clone(world),
        }
    }

    fn fork(&mut self) -> BranchDisk {
        let seal = self.disk.has_writes();
        let mut child_files = None;
        if let Some(mut files) = self.disk.take_files() {
            let mut stage = ForkStage::start(seal);
            loop {
                if let ForkStage::Done(overlay) = stage {
                    child_files = Some(files.fork_child(overlay));
                    break;
                }
                let id = self.world.borrow_mut().perform(files.fork_action(stage));
                stage = files.fork_advance(stage, id);
            }
            self.disk.put_files(files);
        }
        BranchDisk::new(self.disk.fork(child_files), &self.world)
    }

    fn checkpoint(&mut self) -> DurableDiskState {
        let seal = self.disk.has_writes();
        let (state, mut stage) = self.disk.durable_state().unwrap();
        let mut files = self.disk.take_files().unwrap();
        while stage != CheckpointStage::Done {
            let id = self.world.borrow_mut().perform(files.checkpoint_action(stage));
            stage = files.checkpoint_advance(stage, seal, id);
        }
        self.disk.put_files(files);
        if seal {
            self.disk.seal();
        }
        state
    }
}

impl Read for BranchDisk {
    fn read(&mut self, buffer: &mut [u8]) -> io::Result<usize> {
        self.disk
            .read_at(self.position / 4096, buffer)
            .map_err(|_| io::Error::from(io::ErrorKind::Other))
    }
}

impl Write for BranchDisk {
    fn write(&mut self, buffer: &[u8]) -> io::Result<usize> {
        let mut world = self.world.borrow_mut();
        let records = self
            .disk
            .write_at(self.position / 4096, buffer, &mut world.next_block)
            .map_err(|_| io::Error::from(io::ErrorKind::Other))?;
        if let Some(files) = self.disk.files() {
            let overlay = files.overlay();
            for record in records {
                world.overlays.get_mut(&overlay).unwrap().extend(record);
            }
        }
        Ok(buffer.len())
    }

    fn flush(&mut self) -> io::Result<()> {
        Ok(())
    }
}

impl Seek for BranchDisk {
    fn seek(&mut self, target: SeekFrom) -> io::Result<u64> {
        self.position = match target {
            SeekFrom::Start(offset) => offset,
            SeekFrom::End(_) => self.disk.size(),
            SeekFrom::Current(_) => self.position,
        };
        Ok(self.position)
    }
}

struct RedoxBranch {
    fs: FileSystem<DiskIo<BranchDisk>>,
    identities: IdentityBranch,
    world: Shared,
}

impl RedoxBranch {
    fn over(disk: CowDisk, world: &Shared) -> Self {
        let fs = FileSystem::create(DiskIo(BranchDisk::new(disk, world)), None, 1, 0).unwrap();
        let mut identities = IdentityBranch::new();
        identities.create_file(
            TreePtr::<Node>::root().id(),
            &mut world.borrow_mut().identities,
        );
        RedoxBranch {
            fs,
            identities,
            world: Rc::clone(world),
        }
    }

    fn create(size: u64) -> Self {
        RedoxBranch::over(CowDisk::new(size), &world())
    }

    fn create_durable(world: &Shared, size: u64) -> Self {
        let overlay = world.borrow_mut().perform(DiskAction::CreateOverlay);
        let disk = CowDisk::durable(size, DurableCowDisk::create(overlay));
        RedoxBranch::over(disk, world)
    }

    fn create_file(&mut self, name: &str, size: u64) -> NodeId {
        let node = self
            .fs
            .tx(|tx| {
                let node =
                    tx.create_node(TreePtr::<Node>::root(), name, Node::MODE_FILE | 0o644, 1, 0)?;
                tx.truncate_node(node.ptr(), size, 1, 0)?;
                Ok(node.ptr().id())
            })
            .unwrap();
        self.identities
            .create_file(node, &mut self.world.borrow_mut().identities);
        node
    }

    fn read(&mut self, node: NodeId, offset: u64, len: usize) -> Vec<u8> {
        let mut bytes = vec![0; len];
        let read = self.read_node(node, offset, &mut bytes).unwrap();
        bytes.truncate(read);
        bytes
    }

    fn write(&mut self, node: NodeId, offset: u64, bytes: &[u8]) {
        let written = self
            .fs
            .tx(|tx| tx.write_node(TreePtr::<Node>::new(node), offset, bytes, 1, 0))
            .unwrap();
        self.identities
            .record_write(node, offset, written, &mut self.world.borrow_mut().identities)
            .unwrap();
    }

    fn lookup(&mut self, parent: NodeId, name: &str) -> NodeId {
        self.fs
            .tx(|tx| {
                tx.find_node(TreePtr::<Node>::new(parent), name)
                    .map(|node| node.ptr().id())
            })
            .unwrap()
    }

    fn metadata(&mut self, node: NodeId) -> NodeMetadata {
        self.fs
            .tx(|tx| {
                let node = tx.read_tree(TreePtr::<Node>::new(node))?;
                let data = node.data();
                Ok(NodeMetadata {
                    id: node.id(),
                    size: data.size(),
                    blocks_512: blocks_512(data.blocks()),
                    mode: data.mode().into(),
                    links: data.links(),
                    uid: data.uid(),
                    gid: data.gid(),
                    atime: data.atime(),
                    mtime: data.mtime(),
                    ctime: data.ctime(),
                })
            })
            .unwrap()
    }

    fn entries(&mut self, parent: NodeId) -> Vec<DirectoryEntry> {
        let found = self
            .fs
            .tx(|tx| {
                let mut entries = Vec::new();
                tx.child_nodes(TreePtr::<Node>::new(parent), &mut entries)?;
                Ok(entries
                    .into_iter()
                    .map(|entry| (entry.node_ptr().id(), entry.name().map(str::to_owned)))
                    .collect::<Vec<_>>())
            })
            .unwrap();
        directory_entries(found).unwrap()
    }

    fn fork(&mut self) -> Self {
        let disk = self.fs.disk.0.fork();
        let identities = self.identities.fork();
        let fs = FileSystem::open(DiskIo(disk), None, Some(self.fs.block), false).unwrap();
        RedoxBranch {
            fs,
            identities,
            world: Rc::clone(&self.world),
        }
    }

    fn durable_state(&mut self) -> RedoxBranchState {
        let disk = self.fs.disk.0.checkpoint();
        branch_state(disk, self.fs.block, &self.identities)
    }

    fn restore_lineage(world: &Shared, states: Vec<RedoxBranchState>) -> Vec<Self> {
        let mut lineage = RestoringLineage::new();
        let mut branches = Vec::new();
        for state in states {
            let mut restoring = RestoringDisk::new(&state.disk);
            loop {
                let mut world = world.borrow_mut();
                let world = &mut *world;
                match restoring.action() {
                    DiskAction::Finished => break,
                    DiskAction::ReadLayer(layer) => lineage
                        .loaded(
                            &mut restoring,
                            &world.layers[&layer],
                            &mut world.next_block,
                            &mut world.next_durable,
                        )
                        .unwrap(),
                    DiskAction::ReadOverlay(overlay) => lineage
                        .loaded(
                            &mut restoring,
                            &world.overlays[&overlay],
                            &mut world.next_block,
                            &mut world.next_durable,
                        )
                        .unwrap(),
                    action => {
                        let id = world.perform(action);
                        restoring.advance(id);
                    }
                }
            }
            let (files, blocks) = restoring.finish().unwrap();
            let disk = CowDisk::restored(state.disk.size, files, blocks);
            let fs = FileSystem::open(
                DiskIo(BranchDisk::new(disk, world)),
                None,
                Some(state.header_block),
                false,
            )
            .unwrap();
            let identities = lineage.identities(&state.files, &state.pages);
            branches.push(RedoxBranch {
                fs,
                identities,
                world: Rc::clone(world),
            });
        }
        lineage.finish(&mut world.borrow_mut().identities);
        branches
    }

    fn block_accounting(branches: &[&RedoxBranch]) -> BlockAccounting {
        block_accounting(&branches.iter().map(|branch| &branch.fs.disk.0.disk).collect())
    }
}

impl NodeStore for RedoxBranch {
    fn len(&mut self, node: NodeId) -> Result<u64, IoError> {
        Ok(self.metadata(node).size)
    }

    fn read_node(&mut self, node: NodeId, offset: u64, buf: &mut [u8]) -> Result<usize, IoError> {
        self.fs
            .tx(|tx| tx.read_node(TreePtr::<Node>::new(node), offset, buf, 1, 0))
            .map_err(|error| IoError::Os(error.errno))
    }

    fn write_node(&mut self, node: NodeId, offset: u64, buf: &[u8]) -> Result<usize, IoError> {
        self.fs
            .tx(|tx| tx.write_node(TreePtr::<Node>::new(node), offset, buf, 1, 0))
            .map_err(|error| IoError::Os(error.errno))
    }
}

impl ForkableNodeStore for RedoxBranch {
    type PageIdentity = RedoxPageIdentity;

    fn page_identity(&mut self, node: NodeId, offset: u64) -> Result<RedoxPageIdentity, IoError> {
        self.identities.page_identity(node, offset)
    }

    fn prepare_page_write(
        &mut self,
        node: NodeId,
        offset: u64,
    ) -> Result<RedoxPageIdentity, IoError> {
        self.identities
            .prepare_page_write(node, offset, &mut self.world.borrow_mut().identities)
    }

    fn fork_store(&mut self) -> Result<Self, IoError> {
        Ok(self.fork())
    }
}

#[test]
fn forked_redoxfs_branches_share_blocks_and_isolate_file_writes() {
    let mut source = RedoxBranch::create(32 * 1024 * 1024);
    let node = source.create_file("state", 4096);
    source.write(node, 128, b"before fork");

    let mut child = source.fork();
    let before_reads = RedoxBranch::block_accounting(&[&source, &child]);
    assert_eq!(source.read(node, 128, 11), b"before fork");
    assert_eq!(child.read(node, 128, 11), b"before fork");
    assert_eq!(
        RedoxBranch::block_accounting(&[&source, &child]),
        before_reads
    );
    assert!(before_reads.shared_blocks > 0);

    child.write(node, 128, b"child write");

    assert_eq!(source.read(node, 128, 11), b"before fork");
    assert_eq!(child.read(node, 128, 11), b"child write");
}

#[test]
fn redoxfs_fork_does_not_copy_blocks_and_supports_recursive_forks() {
    let mut source = RedoxBranch::create(32 * 1024 * 1024);
    let node = source.create_file("state", 8192);
    source.write(node, 4096, b"source");
    let before = RedoxBranch::block_accounting(&[&source]);

    let mut child = source.fork();
    let after_first_fork = RedoxBranch::block_accounting(&[&source, &child]);
    assert_eq!(after_first_fork.resident_blocks, before.resident_blocks);
    assert_eq!(after_first_fork.shared_blocks, before.resident_blocks);

    child.write(node, 4096, b"child!");
    let mut grandchild = child.fork();
    child.write(node, 4096, b"new kid");

    assert_eq!(source.read(node, 4096, 6), b"source");
    assert_eq!(grandchild.read(node, 4096, 6), b"child!");
    assert_eq!(child.read(node, 4096, 7), b"new kid");
}

#[test]
fn redoxfs_child_survives_after_source_is_dropped() {
    let mut source = RedoxBranch::create(32 * 1024 * 1024);
    let node = source.create_file("state", 4096);
    source.write(node, 64, b"inherited file");
    let mut child = source.fork();

    drop(source);
    let mut grandchild = child.fork();

    assert_eq!(grandchild.read(node, 64, 14), b"inherited file");
}

#[test]
fn branch_exposes_root_directory_metadata_for_virtiofs() {
    let mut branch = RedoxBranch::create(16 * 1024 * 1024);
    let node = branch.create_file("guest-visible", 4096);

    assert_eq!(branch.lookup(1, "guest-visible"), node);
    assert_eq!(branch.metadata(node).size, 4096);
    assert!(branch
        .entries(1)
        .iter()
        .any(|entry| entry.id == node && entry.name == "guest-visible"));
}

#[test]
fn durable_redox_disk_layers_restore_recursive_cow_sharing() {
    let storage = world();
    let node;
    let source_state;
    let child_state;
    {
        let mut source = RedoxBranch::create_durable(&storage, 32 * 1024 * 1024);
        node = source.create_file("state", 8192);
        source.write(node, 128, b"shared");

        let mut child = source.fork();
        source.write(node, 4096, b"source");
        child.write(node, 4096, b"child!");
        source_state = source.durable_state();
        child_state = child.durable_state();
        source.write(node, 128, b"not saved");
        child.write(node, 128, b"not saved");
    }

    let mut restored = RedoxBranch::restore_lineage(&storage, vec![source_state, child_state]);
    let mut child = restored.pop().unwrap();
    let mut source = restored.pop().unwrap();
    assert_eq!(source.read(node, 128, 6), b"shared");
    assert_eq!(child.read(node, 128, 6), b"shared");
    assert_eq!(source.read(node, 4096, 6), b"source");
    assert_eq!(child.read(node, 4096, 6), b"child!");
    assert!(RedoxBranch::block_accounting(&[&source, &child]).shared_blocks > 0);

    let mut grandchild = child.fork();
    child.write(node, 128, b"next!!");
    assert_eq!(child.read(node, 128, 6), b"next!!");
    assert_eq!(grandchild.read(node, 128, 6), b"shared");
}

#[test]
fn forked_redoxfs_branches_share_one_dax_page_until_a_write() {
    let mut filesystem = RedoxBranch::create(32 * 1024 * 1024);
    let node = filesystem.create_file("shared", PAGE);
    filesystem.write(node, 0, b"base page");

    let (mut cache, source) = SharedPageCache::new(1, 1, filesystem);
    cache.open(source, node).unwrap();
    let source_mapping = cache.map_page(source, node, 0, MapFlags::read()).unwrap();
    let source_page_id = source_mapping.page_id();
    cache.unmap(source, source_mapping).unwrap();

    let child = cache.fork(source).unwrap();
    cache.open(child, node).unwrap();
    let both = vec![source, child];
    let before_reads = cache.page_accounting(&both).unwrap();

    let source_read = cache.map_page(source, node, 0, MapFlags::read()).unwrap();
    let child_read = cache.map_page(child, node, 0, MapFlags::read()).unwrap();
    assert_eq!(source_read.page_id(), source_page_id);
    assert_eq!(child_read.page_id(), source_page_id);
    assert_eq!(before_reads.resident_pages, 1);
    assert_eq!(before_reads.shared_pages, 1);
    assert_eq!(cache.page_accounting(&both).unwrap(), before_reads);
    cache.unmap(source, source_read).unwrap();
    cache.unmap(child, child_read).unwrap();

    let child_write = cache
        .map_page(child, node, 0, MapFlags::read().union(MapFlags::write()))
        .unwrap();
    assert!(cache.write_mapped(&child_write, 0, b"child page"));
    cache.unmap(child, child_write).unwrap();

    let source_read = cache.map_page(source, node, 0, MapFlags::read()).unwrap();
    let child_read = cache.map_page(child, node, 0, MapFlags::read()).unwrap();
    let source_bytes = cache.read_mapped(&source_read, 0, 10).unwrap();
    let child_bytes = cache.read_mapped(&child_read, 0, 10).unwrap();
    assert_eq!(source_bytes, b"base page\0");
    assert_eq!(child_bytes, b"child page");

    let after_write = cache.page_accounting(&both).unwrap();
    assert_eq!(after_write.resident_pages, 2);
    assert_eq!(after_write.shared_pages, 0);
}

#[test]
fn dirty_dax_contents_are_part_of_the_filesystem_fork_point() {
    let mut filesystem = RedoxBranch::create(32 * 1024 * 1024);
    let node = filesystem.create_file("state", PAGE);
    filesystem.write(node, 0, b"on disk!!");
    let (mut cache, source) = SharedPageCache::new(1, 1, filesystem);
    cache.open(source, node).unwrap();

    let mapping = cache
        .map_page(source, node, 0, MapFlags::read().union(MapFlags::write()))
        .unwrap();
    assert!(cache.write_mapped(&mapping, 0, b"from dax!"));
    cache.unmap(source, mapping).unwrap();

    let child = cache.fork(source).unwrap();
    cache.open(child, node).unwrap();
    cache.sync(source, node).unwrap();

    let child_mapping = cache.map_page(child, node, 0, MapFlags::read()).unwrap();
    let observed = cache.read_mapped(&child_mapping, 0, 9).unwrap();
    assert_eq!(observed, b"from dax!");
}

fn create_file(supervisor: &mut Supervisor<RedoxBranch>, vm: VmId, name: &str) -> NodeId {
    supervisor
        .with_store_mut(vm, |store| Ok(store.create_file(name, PAGE)))
        .unwrap()
}

#[test]
fn one_supervisor_fork_captures_ram_redoxfs_and_dax_atomically() {
    let mut supervisor = Supervisor::new();
    let source = supervisor
        .create_vm(Ok(RedoxBranch::create(32 * 1024 * 1024)))
        .unwrap();
    let state = create_file(&mut supervisor, source, "state");
    supervisor
        .write_memory(source, 128, b"before fork")
        .unwrap();
    supervisor
        .write_file(source, state, 128, b"before fork")
        .unwrap();

    let child = supervisor.fork_vm(source).unwrap();
    let shared = supervisor.page_accounting();
    assert_eq!(shared.memory.shared_pages, 1);
    assert_eq!(shared.filesystem.shared_pages, 1);

    supervisor
        .write_memory(source, 128, b"after fork!")
        .unwrap();
    supervisor
        .write_file(source, state, 128, b"after fork!")
        .unwrap();

    assert_eq!(
        supervisor.read_memory(child, 128, 11).unwrap(),
        b"before fork"
    );
    assert_eq!(
        supervisor.read_file(child, state, 128, 11).unwrap(),
        b"before fork"
    );
    assert_eq!(
        supervisor.read_memory(source, 128, 11).unwrap(),
        b"after fork!"
    );
    assert_eq!(
        supervisor.read_file(source, state, 128, 11).unwrap(),
        b"after fork!"
    );
}

#[test]
fn supervisor_children_remain_forkable_after_source_exit() {
    let mut supervisor = Supervisor::new();
    let source = supervisor
        .create_vm(Ok(RedoxBranch::create(32 * 1024 * 1024)))
        .unwrap();
    let state = create_file(&mut supervisor, source, "state");
    supervisor
        .write_memory(source, 64, b"inherited RAM")
        .unwrap();
    supervisor
        .write_file(source, state, 64, b"inherited file")
        .unwrap();
    let child = supervisor.fork_vm(source).unwrap();

    supervisor.remove_vm(source).unwrap();
    let grandchild = supervisor.fork_vm(child).unwrap();

    assert_eq!(
        supervisor.read_memory(grandchild, 64, 13).unwrap(),
        b"inherited RAM"
    );
    assert_eq!(
        supervisor.read_file(grandchild, state, 64, 14).unwrap(),
        b"inherited file"
    );
}

/// Where devices would find the filesystems.
const SERVED: InProcessFilesystem = InProcessFilesystem {
    backend_id: 1,
    dax_window_size: 0,
};

/// A guest whose memory is mapped from generation files.
struct Guest {
    memory: Vec<u8>,
    /// The cache that serves its filesystem.
    cache: usize,
    filesystem: VirtioFsBranch,
}

/// A supervisor whose guests never run.
struct Machine {
    supervisor: KvmSupervisor,
    ids: RamIds,
    generations: BTreeMap<u64, Vec<u8>>,
    guests: BTreeMap<KvmVmId, Guest>,
    caches: Vec<SharedPageCache<RedoxBranch>>,
    first: Option<VirtioFsBranch>,
}

/// What is kept of a forest while no supervisor runs.
struct Storage {
    world: Shared,
    manifest: Option<ForestManifest>,
    rams: BTreeMap<u64, Vec<RamPage>>,
    generations: BTreeMap<u64, Vec<u8>>,
    states: BTreeMap<u64, RedoxBranchState>,
}

fn same_manifest(manifest: &ForestManifest) -> ForestManifest {
    let vms = manifest.vms.iter().map(|vm| VmManifest {
        id: vm.id,
        lineage: vm.lineage,
        backend: DurableBackend::Raw,
    });
    ForestManifest {
        version: manifest.version,
        next_vm: manifest.next_vm,
        next_lineage: manifest.next_lineage,
        vms: vms.collect(),
    }
}

fn same_state(state: &RedoxBranchState) -> RedoxBranchState {
    RedoxBranchState {
        disk: DurableDiskState {
            size: state.disk.size,
            layers: state.disk.layers.clone(),
            overlay: state.disk.overlay,
        },
        header_block: state.header_block,
        files: state.files.clone(),
        pages: state.pages.clone(),
    }
}

/// Performs operations on a guest's memory.
fn perform(generations: &mut BTreeMap<u64, Vec<u8>>, memory: &mut [u8], actions: &[RamAction]) {
    for action in actions {
        match *action {
            RamAction::CreateGeneration { generation, len }
            | RamAction::GrowGeneration { generation, len } => generations
                .entry(generation)
                .or_default()
                .resize(len as usize, 0),
            RamAction::CopyPage {
                page,
                generation,
                offset,
            } => generations.get_mut(&generation).unwrap()[offset as usize..][..RAM_PAGE_SIZE]
                .copy_from_slice(&memory[page * RAM_PAGE_SIZE..][..RAM_PAGE_SIZE]),
            RamAction::MapRun {
                start,
                count,
                generation,
                offset,
                ..
            } => memory[start * RAM_PAGE_SIZE..][..count * RAM_PAGE_SIZE].copy_from_slice(
                &generations[&generation][offset as usize..][..count * RAM_PAGE_SIZE],
            ),
            RamAction::DiscardPrivate => {}
        }
    }
}

impl Machine {
    fn new() -> Self {
        let store = RedoxBranch::create(32 * 1024 * 1024);
        Machine::over(KvmSupervisor::new(false), store)
    }

    fn over(supervisor: KvmSupervisor, store: RedoxBranch) -> Self {
        let (cache, branch) = SharedPageCache::new(1, 1, store);
        Machine {
            supervisor,
            ids: RamIds::new(),
            generations: BTreeMap::new(),
            guests: BTreeMap::new(),
            caches: vec![cache],
            first: Some(VirtioFsBranch::new(branch)),
        }
    }

    /// The forest that is kept, or an empty one.
    fn open(storage: &Storage) -> Self {
        let manifest = storage.manifest.as_ref().map(same_manifest);
        let mut opening = match KvmSupervisor::open(manifest).unwrap() {
            Opened::Empty(supervisor) => {
                let store = RedoxBranch::create_durable(&storage.world, 32 * 1024 * 1024);
                return Machine::over(supervisor, store);
            }
            Opened::Saved(opening) => opening,
        };
        let mut ids = RamIds::new();
        let mut generations = storage.generations.clone();
        let mut memories = Vec::new();
        let mut caches = Vec::new();
        let mut branches = Vec::new();
        while opening.stage() != OpenStage::Done {
            match opening.stage() {
                OpenStage::RestoreRams => {
                    let mut rams = Vec::new();
                    for vm in opening.vms() {
                        let (ram, actions) = KvmGuestRam::from_pages(storage.rams[&vm.id].clone());
                        ids.reserve(ram.pages());
                        let mut memory = vec![0xff; ram.len()];
                        perform(&mut generations, &mut memory, &actions);
                        rams.push(ram);
                        memories.push(memory);
                    }
                    opening.rams_restored(Ok(rams));
                }
                OpenStage::RestoreLineage(place) => {
                    let (_, members) = opening.lineage(place);
                    let states = members
                        .iter()
                        .map(|member| same_state(&storage.states[&opening.vms()[*member].id]))
                        .collect();
                    let mut found = Vec::new();
                    for store in RedoxBranch::restore_lineage(&storage.world, states) {
                        let number = caches.len() as u64 + 1;
                        let (cache, branch) = SharedPageCache::new(number, number << 32, store);
                        found.push(InProcessFilesystem {
                            backend_id: caches.len() as u64,
                            dax_window_size: 0,
                        });
                        caches.push(cache);
                        branches.push(branch);
                    }
                    opening.restored(Ok(found));
                }
                _ => opening.advance(Ok(())),
            }
        }
        let supervisor = opening.finish().unwrap();
        let mut guests = BTreeMap::new();
        for (id, memory) in supervisor.vm_ids().into_iter().zip(memories) {
            let cache = supervisor.vm(id).unwrap().filesystem.backend_id as usize;
            assert_eq!(supervisor.vm(id).unwrap().ram.len(), memory.len());
            let filesystem = VirtioFsBranch::new(branches[cache]);
            guests.insert(
                id,
                Guest {
                    memory,
                    cache,
                    filesystem,
                },
            );
        }
        Machine {
            supervisor,
            ids,
            generations,
            guests,
            caches,
            first: None,
        }
    }

    /// Keeps the forest, with one file of each guest.
    fn checkpoint(&mut self, storage: &mut Storage, file: NodeId) {
        for id in self.supervisor.vm_ids() {
            let sealing = self.fork_vm(id);
            self.remove_vm(sealing);
        }
        let mut checkpoint = self.supervisor.checkpoint().unwrap();
        let ids = checkpoint.ids().clone();
        while checkpoint.stage() != ForestStage::Done {
            match checkpoint.stage() {
                ForestStage::SaveFilesystem(place) => {
                    let guest = &self.guests[&ids[place]];
                    let branch = guest.filesystem.branch();
                    let cache = &mut self.caches[guest.cache];
                    cache.sync(branch, file).unwrap();
                    let state = cache.with_store_mut(branch, |store| Ok(store.durable_state()));
                    storage
                        .states
                        .insert(ids[place].into_raw(), state.unwrap());
                }
                ForestStage::SaveRam(place) => {
                    let pages = self.supervisor.vm(ids[place]).unwrap().ram.pages();
                    storage.rams.insert(ids[place].into_raw(), pages.clone());
                }
                ForestStage::Publish => {
                    storage.generations = self.generations.clone();
                    let captured = ids.iter().map(|_| CapturedGuest {
                        lineage: 1,
                        devices: None,
                    });
                    storage.manifest = Some(checkpoint.manifest(captured.collect()));
                }
                _ => {}
            }
            checkpoint.advance(Ok(()));
        }
        checkpoint.finish().unwrap();
    }

    fn create_vm(&mut self, ram_size: usize) -> KvmVmId {
        let mut creation = self.supervisor.create_vm(ram_size);
        let mut memory = vec![0xff; ram_size];
        let filesystem = self.first.take().unwrap();
        while creation.stage() != CreateStage::Done {
            match creation.stage() {
                CreateStage::CreateVm => creation.vm_created(Ok(()), &mut self.ids),
                CreateStage::MapRam => {
                    perform(&mut self.generations, &mut memory, creation.actions());
                    creation.advance(Ok(()));
                }
                CreateStage::CreateFilesystem => creation.filesystem_created(Ok(SERVED)),
                _ => creation.advance(Ok(())),
            }
        }
        let id = self.supervisor.finish_creation(creation).unwrap();
        self.guests.insert(
            id,
            Guest {
                memory,
                cache: 0,
                filesystem,
            },
        );
        id
    }

    fn access(begun: Result<Barrier<SupervisorError>, SupervisorError>, operation: impl FnOnce()) {
        let mut access = begun.unwrap();
        let mut operation = Some(operation);
        while access.stage() != BarrierStage::Done {
            if access.stage() == BarrierStage::Operate {
                (operation.take().unwrap())();
            }
            access.advance(Ok(()));
        }
        access.finish().unwrap();
    }

    fn create_file(&mut self, vm: KvmVmId, name: &str, size: u64) -> NodeId {
        let guest = &self.guests[&vm];
        let branch = guest.filesystem.branch();
        let cache = &mut self.caches[guest.cache];
        let mut node = 0;
        Self::access(self.supervisor.create_file(vm), || {
            node = cache
                .with_store_mut(branch, |store| Ok(store.create_file(name, size)))
                .unwrap();
        });
        node
    }

    fn write_memory(&mut self, vm: KvmVmId, address: usize, bytes: &[u8]) {
        let memory = &mut self.guests.get_mut(&vm).unwrap().memory;
        let begun = self.supervisor.write_memory(vm);
        Self::access(begun, || {
            self.supervisor
                .write_ram(vm, memory, address, bytes)
                .unwrap();
        });
    }

    fn read_memory(&self, vm: KvmVmId, address: usize, len: usize) -> Vec<u8> {
        let memory = &self.guests[&vm].memory;
        let mut bytes = Vec::new();
        Self::access(self.supervisor.read_memory(vm), || {
            bytes = self.supervisor.read_ram(vm, memory, address, len).unwrap();
        });
        bytes
    }

    fn write_file(&mut self, vm: KvmVmId, node: NodeId, offset: u64, bytes: &[u8]) {
        let guest = &self.guests[&vm];
        let cache = &mut self.caches[guest.cache];
        Self::access(self.supervisor.write_file(vm), || {
            guest
                .filesystem
                .write_cached(cache, node, offset, bytes)
                .unwrap();
        });
    }

    fn read_file(&mut self, vm: KvmVmId, node: NodeId, offset: u64, len: usize) -> Vec<u8> {
        let guest = &self.guests[&vm];
        let cache = &mut self.caches[guest.cache];
        let mut bytes = Vec::new();
        Self::access(self.supervisor.read_file(vm), || {
            bytes = guest
                .filesystem
                .read_cached(cache, node, offset, len)
                .unwrap();
        });
        bytes
    }

    fn fork_vm(&mut self, source: KvmVmId) -> KvmVmId {
        let mut fork = match self.supervisor.fork_vm(source).unwrap() {
            GuestFork::Raw(fork) => fork,
            GuestFork::Cloud(_) => panic!("the guest has no device model"),
        };
        let mut guest = self.guests.remove(&source).unwrap();
        let mut filesystem = None;
        let mut memory = vec![0xff; guest.memory.len()];
        while fork.stage() != GuestForkStage::Done {
            match fork.stage() {
                GuestForkStage::ForkFilesystem => {
                    let branch = self.caches[guest.cache]
                        .fork(guest.filesystem.branch())
                        .unwrap();
                    filesystem = Some(guest.filesystem.child(branch));
                    fork.filesystem_forked(Ok(SERVED));
                }
                GuestForkStage::ReadDirtyLog => fork.dirty_log_read(Ok(vec![0]), &mut self.ids),
                GuestForkStage::CopyPages | GuestForkStage::MapSource => {
                    perform(&mut self.generations, &mut guest.memory, fork.actions());
                    fork.advance(Ok(()));
                }
                GuestForkStage::MapChild => {
                    perform(&mut self.generations, &mut memory, fork.actions());
                    fork.advance(Ok(()));
                }
                _ => fork.advance(Ok(())),
            }
        }
        let cache = guest.cache;
        self.guests.insert(source, guest);
        let id = self.supervisor.finish_fork(fork, 1).unwrap();
        let filesystem = filesystem.unwrap();
        self.guests.insert(
            id,
            Guest {
                memory,
                cache,
                filesystem,
            },
        );
        id
    }

    fn remove_vm(&mut self, vm: KvmVmId) {
        self.supervisor.remove_vm(vm).unwrap();
        let guest = self.guests.remove(&vm).unwrap();
        self.caches[guest.cache]
            .remove_branch(guest.filesystem.branch())
            .unwrap();
    }

    fn page_accounting(&mut self) -> KvmForkAccounting {
        let mut filesystem = CachePageAccounting {
            resident_pages: 0,
            shared_pages: 0,
        };
        for (number, cache) in self.caches.iter_mut().enumerate() {
            let branches = self
                .guests
                .values()
                .filter(|guest| guest.cache == number)
                .map(|guest| guest.filesystem.branch())
                .collect();
            let pages = cache.page_accounting(&branches).unwrap();
            filesystem.resident_pages += pages.resident_pages;
            filesystem.shared_pages += pages.shared_pages;
        }
        self.supervisor.page_accounting(filesystem)
    }
}

#[test]
fn one_kvm_supervisor_fork_publishes_ram_redoxfs_and_dax() {
    let mut supervisor = Machine::new();
    let source = supervisor.create_vm(RAM_PAGE_SIZE * 3);
    let state = supervisor.create_file(source, "state", RAM_PAGE_SIZE as u64);
    let cold = supervisor.create_file(source, "cold", RAM_PAGE_SIZE as u64);
    supervisor.write_memory(source, 128, b"before fork");
    supervisor.write_file(source, state, 128, b"before fork");

    let child = supervisor.fork_vm(source);
    let shared = supervisor.page_accounting();
    assert_eq!(shared.memory.resident_pages, 3);
    assert_eq!(shared.memory.shared_pages, 3);
    assert_eq!(shared.filesystem.resident_pages, 1);
    assert_eq!(shared.filesystem.shared_pages, 1);

    assert_eq!(
        supervisor.read_file(source, cold, 0, RAM_PAGE_SIZE),
        vec![0; RAM_PAGE_SIZE]
    );
    assert_eq!(
        supervisor.read_file(child, cold, 0, RAM_PAGE_SIZE),
        vec![0; RAM_PAGE_SIZE]
    );
    let cold_shared = supervisor.page_accounting().filesystem;
    assert_eq!(cold_shared.resident_pages, 2);
    assert_eq!(cold_shared.shared_pages, 2);

    supervisor.write_memory(source, 128, b"after fork!");
    supervisor.write_file(source, state, 128, b"after fork!");
    assert_eq!(supervisor.read_memory(child, 128, 11), b"before fork");
    assert_eq!(supervisor.read_file(child, state, 128, 11), b"before fork");

    let grandchild = supervisor.fork_vm(source);
    supervisor.remove_vm(source);
    assert_eq!(supervisor.read_memory(grandchild, 128, 11), b"after fork!");
    assert_eq!(
        supervisor.read_file(grandchild, state, 128, 11),
        b"after fork!"
    );
}

#[test]
fn persisted_fork_forest_recovers_ram_filesystems_and_recursive_cow() {
    let mut storage = Storage {
        world: world(),
        manifest: None,
        rams: BTreeMap::new(),
        generations: BTreeMap::new(),
        states: BTreeMap::new(),
    };
    let source;
    let child;
    let state;

    {
        let mut supervisor = Machine::open(&storage);
        source = supervisor.create_vm(3 * RAM_PAGE_SIZE);
        state = supervisor.create_file(source, "state", RAM_PAGE_SIZE as u64);
        supervisor.write_memory(source, 128, b"shared ram");
        supervisor.write_file(source, state, 128, b"shared file");

        child = supervisor.fork_vm(source);
        supervisor.write_memory(source, RAM_PAGE_SIZE + 128, b"source ram");
        supervisor.write_file(source, state, 128, b"source file");
        supervisor.write_memory(child, 2 * RAM_PAGE_SIZE + 128, b"child ram");
        supervisor.write_file(child, state, 128, b"child file!");
        supervisor.checkpoint(&mut storage, state);
    }

    let grandchild;
    {
        let mut supervisor = Machine::open(&storage);
        assert_eq!(supervisor.supervisor.vm_ids(), vec![source, child]);
        assert_eq!(
            supervisor.read_memory(source, RAM_PAGE_SIZE + 128, 10),
            b"source ram"
        );
        assert_eq!(
            supervisor.read_memory(source, 2 * RAM_PAGE_SIZE + 128, 9),
            &[0; 9]
        );
        assert_eq!(
            supervisor.read_memory(child, RAM_PAGE_SIZE + 128, 10),
            &[0; 10]
        );
        assert_eq!(
            supervisor.read_memory(child, 2 * RAM_PAGE_SIZE + 128, 9),
            b"child ram"
        );
        assert_eq!(supervisor.read_file(source, state, 128, 11), b"source file");
        assert_eq!(supervisor.read_file(child, state, 128, 11), b"child file!");
        let accounting = supervisor.page_accounting();
        assert_eq!(accounting.memory.resident_pages, 5);
        assert_eq!(accounting.memory.shared_pages, 1);
        assert_eq!(accounting.filesystem.resident_pages, 2);

        grandchild = supervisor.fork_vm(child);
        supervisor.write_memory(child, 128, b"child next");
        supervisor.write_file(child, state, 128, b"child next!");
        supervisor.checkpoint(&mut storage, state);
    }

    {
        let mut supervisor = Machine::open(&storage);
        assert_eq!(
            supervisor.supervisor.vm_ids(),
            vec![source, child, grandchild]
        );
        assert_eq!(supervisor.read_memory(child, 128, 10), b"child next");
        assert_eq!(supervisor.read_memory(grandchild, 128, 10), b"shared ram");
        assert_eq!(supervisor.read_file(child, state, 128, 11), b"child next!");
        assert_eq!(
            supervisor.read_file(grandchild, state, 128, 11),
            b"child file!"
        );
        supervisor.write_memory(child, 128, b"not saved!");
        supervisor.write_file(child, state, 128, b"not saved!!");
    }

    {
        let mut supervisor = Machine::open(&storage);
        assert_eq!(supervisor.read_memory(child, 128, 10), b"child next");
        assert_eq!(supervisor.read_file(child, state, 128, 11), b"child next!");
    }
}
