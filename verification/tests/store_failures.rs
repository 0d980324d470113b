use std::collections::BTreeMap;

use minidox::cache::page_cache::PageCache;
use minidox::cache::shared::{CacheBranchId, SharedPageCache};
use minidox::cache::store::{
    fully_written, readable_len, CacheError, ForkableNodeStore, MapFlags, NodeId, NodeStore,
};
use minidox::fork::{Error, Supervisor, VmId};
use minidox::io::IoError;
use minidox::vmm::virtiofs::VirtioFsBranch;

const NODE: NodeId = 7;

/// What the store does not do.
#[derive(Clone, Copy, PartialEq)]
enum Fault {
    Len,
    Read,
    Write,
    WriteAll,
    Open,
    Close,
    Identity,
    Prepare,
    Fork,
}

/// Each fault has an error number of its own.
fn number(fault: Fault) -> i32 {
    100 + fault as i32
}

#[derive(Clone)]
struct Store {
    nodes: BTreeMap<NodeId, Vec<u8>>,
    versions: BTreeMap<(NodeId, u64), u64>,
    next_version: u64,
    fault: Option<Fault>,
}

impl Store {
    fn holding(bytes: &[u8]) -> Self {
        Store {
            nodes: BTreeMap::from([(NODE, bytes.to_vec())]),
            versions: BTreeMap::new(),
            next_version: 1,
            fault: None,
        }
    }

    fn attempt(&self, fault: Fault) -> Result<(), IoError> {
        if self.fault == Some(fault) {
            return Err(IoError::Os(number(fault)));
        }
        Ok(())
    }
}

impl NodeStore for Store {
    fn len(&mut self, node: NodeId) -> Result<u64, IoError> {
        self.attempt(Fault::Len)?;
        Ok(self.nodes[&node].len() as u64)
    }

    fn read_node(&mut self, node: NodeId, offset: u64, buf: &mut [u8]) -> Result<usize, IoError> {
        self.attempt(Fault::Read)?;
        let data = &self.nodes[&node];
        let count = readable_len(data.len() as u64, offset, buf.len());
        buf[..count].copy_from_slice(&data[offset as usize..][..count]);
        Ok(count)
    }

    fn write_node(&mut self, node: NodeId, offset: u64, buf: &[u8]) -> Result<usize, IoError> {
        self.attempt(Fault::Write)?;
        let count = if self.fault == Some(Fault::WriteAll) {
            buf.len() - 1
        } else {
            buf.len()
        };
        let data = self.nodes.get_mut(&node).unwrap();
        let start = offset as usize;
        data.resize(data.len().max(start + count), 0);
        data[start..start + count].copy_from_slice(&buf[..count]);
        Ok(count)
    }

    fn on_open_node(&mut self, _node: NodeId) -> Result<(), IoError> {
        self.attempt(Fault::Open)
    }

    fn on_close_node(&mut self, _node: NodeId) -> Result<(), IoError> {
        self.attempt(Fault::Close)
    }
}

impl ForkableNodeStore for Store {
    type PageIdentity = (NodeId, (u64, u64));

    fn page_identity(
        &mut self,
        node: NodeId,
        offset: u64,
    ) -> Result<(NodeId, (u64, u64)), IoError> {
        self.attempt(Fault::Identity)?;
        let page = offset / 4096;
        let version = self.versions.get(&(node, page)).copied().unwrap_or(0);
        Ok((node, (page, version)))
    }

    fn prepare_page_write(
        &mut self,
        node: NodeId,
        offset: u64,
    ) -> Result<(NodeId, (u64, u64)), IoError> {
        self.attempt(Fault::Prepare)?;
        let page = offset / 4096;
        let version = self.next_version;
        self.next_version += 1;
        self.versions.insert((node, page), version);
        Ok((node, (page, version)))
    }

    fn fork_store(&mut self) -> Result<Self, IoError> {
        self.attempt(Fault::Fork)?;
        let mut child = self.clone();
        child.next_version += 1000;
        Ok(child)
    }
}

fn came_from(error: CacheError, fault: Fault) -> bool {
    match (error, fault) {
        (CacheError::Io(IoError::WriteZero(text)), Fault::WriteAll) => {
            text == "short filesystem write"
        }
        (CacheError::Io(IoError::Os(given)), fault) => given == number(fault),
        _ => false,
    }
}

fn ended_with(error: Error, fault: Fault) -> bool {
    match error {
        Error::Cache(error) => came_from(error, fault),
        Error::Io(error) => came_from(CacheError::Io(error), fault),
        _ => false,
    }
}

fn private() -> PageCache<Store> {
    let mut cache = PageCache::new(1, Store::holding(&[1; 8192]));
    cache.open(NODE).unwrap();
    cache
}

fn shared() -> (SharedPageCache<Store>, CacheBranchId) {
    let (mut cache, branch) = SharedPageCache::new(1, 1, Store::holding(&[1; 8192]));
    cache.open(branch, NODE).unwrap();
    (cache, branch)
}

fn inject(cache: &mut SharedPageCache<Store>, branch: CacheBranchId, fault: Option<Fault>) {
    cache
        .with_store_mut(branch, |store| {
            store.fault = fault;
            Ok(())
        })
        .unwrap();
}

#[test]
fn a_write_is_done_only_when_all_is_written() {
    assert!(fully_written(0, 0).is_ok());
    assert!(fully_written(10, 10).is_ok());
    for (written, count) in [(0, 1), (9, 10), (11, 10)] {
        match fully_written(written, count) {
            Err(IoError::WriteZero(text)) => assert_eq!(text, "short filesystem write"),
            _ => panic!("{written} of {count} bytes were taken for all"),
        }
    }
}

#[test]
fn reads_end_with_the_file() {
    assert_eq!(readable_len(100, 0, 40), 40);
    assert_eq!(readable_len(100, 60, 40), 40);
    assert_eq!(readable_len(100, 61, 40), 39);
    assert_eq!(readable_len(100, 100, 40), 0);
    assert_eq!(readable_len(100, 400, 40), 0);
    assert_eq!(readable_len(100, 10, 0), 0);
    assert_eq!(readable_len(u64::MAX, 0, usize::MAX), usize::MAX);
}

#[test]
fn private_cache_gives_the_answer_of_its_store() {
    let mut bytes = [0; 16];
    for fault in [Fault::Len, Fault::Read] {
        let mut cache = private();
        cache.store_mut().fault = Some(fault);
        assert!(came_from(cache.read(NODE, 0, &mut bytes).unwrap_err(), fault));
        cache.store_mut().fault = None;
        assert_eq!(cache.read(NODE, 0, &mut bytes).unwrap(), 16);
        assert_eq!(bytes, [1; 16]);
    }

    let mut cache = private();
    cache.store_mut().fault = Some(Fault::Write);
    assert!(came_from(cache.write(NODE, 0, &[2; 16]).unwrap_err(), Fault::Write));
    cache.store_mut().fault = Some(Fault::WriteAll);
    assert_eq!(cache.write(NODE, 0, &[2; 16]).unwrap(), 15);

    let mut cache = private();
    cache.store_mut().fault = Some(Fault::Read);
    let refused = cache.map(NODE, 0, 4096, MapFlags::read());
    assert!(came_from(refused.unwrap_err(), Fault::Read));
    cache.store_mut().fault = None;
    assert!(cache.map(NODE, 0, 4096, MapFlags::read()).is_ok());

    let mut cache = PageCache::new(1, Store::holding(&[1; 8192]));
    cache.store_mut().fault = Some(Fault::Open);
    assert!(came_from(cache.open(NODE).unwrap_err(), Fault::Open));
}

#[test]
fn private_cache_is_not_synced_when_its_store_fails() {
    for fault in [Fault::Len, Fault::Write, Fault::WriteAll] {
        let mut cache = private();
        let mapping = cache.map(NODE, 4096, 4096, MapFlags::read_write()).unwrap();
        assert!(cache.write_mapped(&mapping, 8, &[9; 4]));
        cache.store_mut().fault = Some(fault);
        assert!(came_from(cache.sync(NODE).unwrap_err(), fault));
        assert!(came_from(cache.unmap(mapping).unwrap_err(), fault));
        cache.store_mut().fault = None;
        cache.sync(NODE).unwrap();
        assert_eq!(cache.store().nodes[&NODE][4104..4108], [9; 4]);
    }
}

#[test]
fn shared_page_is_not_brought_in_when_the_store_fails() {
    for fault in [Fault::Identity, Fault::Read] {
        let (mut cache, branch) = shared();
        inject(&mut cache, branch, Some(fault));
        let refused = cache.map_page(branch, NODE, 0, MapFlags::read());
        assert!(came_from(refused.unwrap_err(), fault));
        let mut bytes = [0; 16];
        let refused = cache.read(branch, NODE, 0, &mut bytes);
        assert!(came_from(refused.unwrap_err(), fault));

        inject(&mut cache, branch, None);
        assert_eq!(cache.read(branch, NODE, 0, &mut bytes).unwrap(), 16);
        assert_eq!(bytes, [1; 16]);
    }
}

#[test]
fn first_write_of_a_branch_fails_with_its_store() {
    let (mut cache, branch) = shared();
    inject(&mut cache, branch, Some(Fault::Prepare));
    assert!(cache.map_page(branch, NODE, 0, MapFlags::read()).is_ok());
    let refused = cache.map_page(branch, NODE, 4096, MapFlags::write());
    assert!(came_from(refused.unwrap_err(), Fault::Prepare));
    let refused = cache.write(branch, NODE, 4096, &[2; 16]);
    assert!(came_from(refused.unwrap_err(), Fault::Prepare));

    inject(&mut cache, branch, None);
    assert_eq!(cache.write(branch, NODE, 4096, &[2; 16]).unwrap(), 16);
    inject(&mut cache, branch, Some(Fault::Prepare));
    assert_eq!(cache.write(branch, NODE, 4096, &[3; 16]).unwrap(), 16);
    match cache.map_page(branch, NODE, 0, MapFlags::write()) {
        Err(CacheError::PageBusy) => {}
        _ => panic!("a mapped page was given up"),
    }
}

#[test]
fn shared_cache_is_not_synced_when_the_store_fails() {
    for fault in [Fault::Len, Fault::Identity, Fault::Write, Fault::WriteAll] {
        let (mut cache, branch) = shared();
        cache.write(branch, NODE, 10, &[5; 3]).unwrap();
        inject(&mut cache, branch, Some(fault));
        assert!(came_from(cache.sync(branch, NODE).unwrap_err(), fault));
        inject(&mut cache, branch, None);
        cache.sync(branch, NODE).unwrap();
        let stored = cache.with_store_mut(branch, |store| Ok(store.nodes[&NODE][10..13].to_vec()));
        assert_eq!(stored.unwrap(), [5; 3]);
    }
}

#[test]
fn branch_is_forked_opened_and_closed_as_its_store_answers() {
    let (mut cache, branch) = shared();
    inject(&mut cache, branch, Some(Fault::Fork));
    assert!(came_from(cache.fork(branch).unwrap_err(), Fault::Fork));
    inject(&mut cache, branch, Some(Fault::Close));
    assert!(came_from(cache.close(branch, NODE).unwrap_err(), Fault::Close));

    let (mut cache, branch) = SharedPageCache::new(1, 1, Store::holding(&[1; 8192]));
    inject(&mut cache, branch, Some(Fault::Open));
    assert!(came_from(cache.open(branch, NODE).unwrap_err(), Fault::Open));
    inject(&mut cache, branch, None);
    cache.open(branch, NODE).unwrap();
    assert!(cache.fork(branch).is_ok());
}

#[test]
fn files_of_a_branch_fail_with_its_store() {
    for fault in [
        Fault::Open,
        Fault::Len,
        Fault::Identity,
        Fault::Prepare,
        Fault::Write,
        Fault::WriteAll,
        Fault::Close,
    ] {
        let (mut cache, branch) = SharedPageCache::new(1, 1, Store::holding(&[1; 8192]));
        let filesystem = VirtioFsBranch::new(branch);
        inject(&mut cache, branch, Some(fault));
        assert!(filesystem
            .write_cached(&mut cache, NODE, 100, &[4; 8])
            .is_err());
        inject(&mut cache, branch, None);
        filesystem
            .write_cached(&mut cache, NODE, 100, &[4; 8])
            .unwrap();
        let bytes = filesystem.read_cached(&mut cache, NODE, 98, 12).unwrap();
        assert_eq!(bytes, [1, 1, 4, 4, 4, 4, 4, 4, 4, 4, 1, 1]);
    }
}

fn fail(supervisor: &mut Supervisor<Store>, vm: VmId, fault: Option<Fault>) {
    supervisor
        .with_store_mut(vm, |store| {
            store.fault = fault;
            Ok(())
        })
        .unwrap();
}

#[test]
fn failed_creation_uses_up_a_number() {
    let mut supervisor: Supervisor<Store> = Supervisor::new();
    let mut forest: Supervisor<Store> = Supervisor::new();
    let second = {
        forest.create_vm(Ok(Store::holding(&[1]))).unwrap();
        forest.create_vm(Ok(Store::holding(&[1]))).unwrap()
    };
    match supervisor.create_vm(Err(IoError::Os(28))) {
        Err(Error::Io(IoError::Os(28))) => {}
        _ => panic!("a VM without a filesystem was created"),
    }
    let vm = supervisor.create_vm(Ok(Store::holding(&[1]))).unwrap();
    assert_eq!(vm, second);
    assert_eq!(supervisor.page_accounting().filesystem.resident_pages, 0);
}

#[test]
fn supervisor_gives_the_answer_of_the_filesystem() {
    let mut supervisor = Supervisor::new();
    let vm = supervisor
        .create_vm(Ok(Store::holding(&[1; 8192])))
        .unwrap();
    for fault in [Fault::Open, Fault::Len, Fault::Identity, Fault::Read] {
        fail(&mut supervisor, vm, Some(fault));
        let refused = supervisor.read_file(vm, NODE, 0, 4);
        assert!(ended_with(refused.unwrap_err(), fault));
    }
    for fault in [Fault::Open, Fault::Len, Fault::Prepare] {
        fail(&mut supervisor, vm, Some(fault));
        let refused = supervisor.write_file(vm, NODE, 0, &[2; 4]);
        assert!(ended_with(refused.unwrap_err(), fault));
    }
    fail(&mut supervisor, vm, Some(Fault::Fork));
    assert!(ended_with(supervisor.fork_vm(vm).unwrap_err(), Fault::Fork));

    fail(&mut supervisor, vm, None);
    supervisor.write_file(vm, NODE, 0, &[2; 4]).unwrap();
    let child = supervisor.fork_vm(vm).unwrap();
    assert_eq!(supervisor.read_file(child, NODE, 2, 4).unwrap(), [2, 2, 1, 1]);
}
