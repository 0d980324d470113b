use std::cell::RefCell;
use std::collections::BTreeMap;
use std::rc::Rc;

use minidox::cache::shared::{CacheBranchId, SharedPageCache};
use minidox::cache::store::{CacheError, ForkableNodeStore, MapFlags, NodeId, NodeStore};
use minidox::io::{IoError, EBUSY, EINVAL, ENODEV, ENOENT, EOVERFLOW};
use minidox::redox::branch::NodeMetadata;
use minidox::redox::identity::{IdentityBranch, IdentitySource, RedoxPageIdentity};
use minidox::vmm::virtiofs::{
    is_directory, node_attr, node_id, DaxError, DaxStep, DaxTask, FileFailure, VirtioFsBranch,
};

struct MemoryStore {
    nodes: BTreeMap<NodeId, Vec<u8>>,
    identities: IdentityBranch,
    source: Rc<RefCell<IdentitySource>>,
    /// How often a node came into use, and went out of use.
    heard: (usize, usize),
    refuses: bool,
}

impl MemoryStore {
    fn with_node(node: NodeId, bytes: Vec<u8>) -> Self {
        let mut source = IdentitySource::new();
        let mut identities = IdentityBranch::new();
        identities.create_file(node, &mut source);
        MemoryStore {
            nodes: BTreeMap::from([(node, bytes)]),
            identities,
            source: Rc::new(RefCell::new(source)),
            heard: (0, 0),
            refuses: false,
        }
    }
}

impl NodeStore for MemoryStore {
    fn len(&mut self, node: NodeId) -> Result<u64, IoError> {
        let data = self.nodes.get(&node).ok_or(IoError::Os(ENOENT))?;
        Ok(data.len() as u64)
    }

    fn read_node(&mut self, node: NodeId, offset: u64, buf: &mut [u8]) -> Result<usize, IoError> {
        let data = self.nodes.get(&node).ok_or(IoError::Os(ENOENT))?;
        let start = (offset as usize).min(data.len());
        let count = buf.len().min(data.len() - start);
        buf[..count].copy_from_slice(&data[start..start + count]);
        Ok(count)
    }

    fn write_node(&mut self, node: NodeId, offset: u64, buf: &[u8]) -> Result<usize, IoError> {
        let start = offset as usize;
        let data = self.nodes.get_mut(&node).ok_or(IoError::Os(ENOENT))?;
        data.resize(data.len().max(start + buf.len()), 0);
        data[start..start + buf.len()].copy_from_slice(buf);
        Ok(buf.len())
    }

    fn on_open_node(&mut self, _node: NodeId) -> Result<(), IoError> {
        self.heard.0 += 1;
        if self.refuses {
            Err(IoError::Os(EBUSY))
        } else {
            Ok(())
        }
    }

    fn on_close_node(&mut self, _node: NodeId) -> Result<(), IoError> {
        self.heard.1 += 1;
        if self.refuses {
            Err(IoError::Os(EBUSY))
        } else {
            Ok(())
        }
    }
}

impl ForkableNodeStore for MemoryStore {
    type PageIdentity = RedoxPageIdentity;

    fn page_identity(&mut self, node: NodeId, offset: u64) -> Result<RedoxPageIdentity, IoError> {
        self.identities.page_identity(node, offset)
    }

    fn prepare_page_write(
        &mut self,
        node: NodeId,
        offset: u64,
    ) -> Result<RedoxPageIdentity, IoError> {
        self.identities
            .prepare_page_write(node, offset, &mut self.source.borrow_mut())
    }

    fn fork_store(&mut self) -> Result<Self, IoError> {
        Ok(MemoryStore {
            nodes: self.nodes.clone(),
            identities: self.identities.fork(),
            source: Rc::clone(&self.source),
            heard: (0, 0),
            refuses: false,
        })
    }
}

/// A window as the guest sees it: the cache's page under each offset.
struct Window {
    pages: BTreeMap<u64, u64>,
    fails_at: Option<u64>,
}

/// Carries a request out; gives what it came to.
fn carry_out(
    filesystem: &mut VirtioFsBranch,
    cache: &mut SharedPageCache<MemoryStore>,
    window: &mut Window,
    mut task: DaxTask,
) -> Result<(), DaxError> {
    loop {
        match filesystem.step(&mut task, cache) {
            DaxStep::MapPage { offset, page } => {
                let outcome = if window.fails_at == Some(offset) {
                    Err(12)
                } else {
                    window.pages.insert(offset, page);
                    Ok(())
                };
                filesystem.done(&mut task, cache, outcome)?;
            }
            DaxStep::UnmapPage { offset } => {
                window.pages.remove(&offset).unwrap();
                filesystem.done(&mut task, cache, Ok(()))?;
            }
            DaxStep::Continue => {}
            DaxStep::Finished(result) => return result,
        }
    }
}

fn start() -> (
    SharedPageCache<MemoryStore>,
    CacheBranchId,
    VirtioFsBranch,
    Window,
) {
    let (mut cache, branch) =
        SharedPageCache::new(1, 1, MemoryStore::with_node(3, vec![5; 3 * 4096]));
    cache.open(branch, 3).unwrap();
    let mut filesystem = VirtioFsBranch::new(branch);
    let mut window = Window {
        pages: BTreeMap::new(),
        fails_at: None,
    };
    let task = filesystem.attach_dax_window(0x10000, 16 * 4096).unwrap();
    carry_out(&mut filesystem, &mut cache, &mut window, task).unwrap();
    (cache, branch, filesystem, window)
}

fn refused(result: Result<DaxTask, IoError>) -> i32 {
    match result {
        Err(IoError::Os(code)) => code,
        _ => panic!("the request was not refused"),
    }
}

#[test]
fn mapped_pages_are_in_the_window_until_they_are_removed() {
    let (mut cache, _, mut filesystem, mut window) = start();
    let task = filesystem.setup_mapping(3, 4096, 8192, true, 8192).unwrap();
    carry_out(&mut filesystem, &mut cache, &mut window, task).unwrap();
    assert_eq!(
        window.pages.keys().copied().collect::<Vec<_>>(),
        vec![8192, 12288]
    );
    assert_eq!(filesystem.nodes(), vec![3]);

    let task = filesystem.remove_mapping(8192, 4096).unwrap();
    carry_out(&mut filesystem, &mut cache, &mut window, task).unwrap();
    assert_eq!(
        window.pages.keys().copied().collect::<Vec<_>>(),
        vec![12288]
    );
    let task = filesystem.remove_mapping(8192, 4096).unwrap();
    assert!(carry_out(&mut filesystem, &mut cache, &mut window, task).is_err());
}

#[test]
fn requests_that_do_not_fit_the_window_are_refused() {
    let (mut cache, branch, mut filesystem, mut window) = start();
    assert_eq!(refused(filesystem.setup_mapping(3, 0, 0, false, 0)), EINVAL);
    assert_eq!(
        refused(filesystem.setup_mapping(3, 1, 4096, false, 0)),
        EINVAL
    );
    assert_eq!(
        refused(filesystem.setup_mapping(3, 0, 4096, false, 16 * 4096)),
        EINVAL
    );
    assert_eq!(
        refused(filesystem.setup_mapping(1 << 40, 0, 4096, false, 0)),
        EOVERFLOW
    );
    let task = filesystem.setup_mapping(3, 0, 4096, false, 0).unwrap();
    carry_out(&mut filesystem, &mut cache, &mut window, task).unwrap();
    assert_eq!(
        refused(filesystem.setup_mapping(3, 0, 8192, false, 0)),
        EBUSY
    );
    assert_eq!(refused(filesystem.remove_mapping(0, 100)), EINVAL);
    let mut without_window = VirtioFsBranch::new(branch);
    assert_eq!(
        refused(without_window.setup_mapping(3, 0, 4096, false, 0)),
        ENODEV
    );
}

#[test]
fn pages_behind_the_end_of_a_file_are_left_out() {
    let (mut cache, _, mut filesystem, mut window) = start();
    let task = filesystem.setup_mapping(3, 4096, 4 * 4096, false, 8192).unwrap();
    carry_out(&mut filesystem, &mut cache, &mut window, task).unwrap();
    assert_eq!(filesystem.active_offsets(), vec![8192, 12288]);
    let task = filesystem.remove_mapping(8192, 4 * 4096).unwrap();
    carry_out(&mut filesystem, &mut cache, &mut window, task).unwrap();
    assert!(filesystem.active_offsets().is_empty());
    assert!(filesystem.nodes().is_empty());
}

#[test]
fn request_that_fails_half_way_leaves_nothing_behind() {
    let (mut cache, branch, mut filesystem, mut window) = start();
    window.fails_at = Some(4096);
    let task = filesystem.setup_mapping(3, 0, 3 * 4096, false, 0).unwrap();
    assert!(carry_out(&mut filesystem, &mut cache, &mut window, task).is_err());
    assert!(window.pages.is_empty());
    assert!(filesystem.nodes().is_empty());
    window.fails_at = None;
    let task = filesystem.setup_mapping(3, 0, 3 * 4096, false, 0).unwrap();
    carry_out(&mut filesystem, &mut cache, &mut window, task).unwrap();
    assert_eq!(window.pages.len(), 3);
    assert!(matches!(
        cache.fork(branch),
        Err(CacheError::ActiveMappings)
    ));
}

#[test]
fn window_is_emptied_for_a_fork_and_filled_again() {
    let (mut cache, branch, mut filesystem, mut window) = start();
    let task = filesystem.setup_mapping(3, 0, 8192, false, 0).unwrap();
    carry_out(&mut filesystem, &mut cache, &mut window, task).unwrap();
    let before = window.pages.clone();

    let task = filesystem.suspend_mappings(false);
    carry_out(&mut filesystem, &mut cache, &mut window, task).unwrap();
    assert!(window.pages.is_empty());
    let child_branch = cache.fork(branch).unwrap();
    let mut child = filesystem.child(child_branch);
    let task = filesystem.resume_mappings(false).unwrap();
    carry_out(&mut filesystem, &mut cache, &mut window, task).unwrap();
    assert_eq!(window.pages, before);

    child.open_files(&mut cache).unwrap();
    let mut child_window = Window {
        pages: BTreeMap::new(),
        fails_at: None,
    };
    let task = child.attach_dax_window(0x90000, 16 * 4096).unwrap();
    carry_out(&mut child, &mut cache, &mut child_window, task).unwrap();
    assert_eq!(child_window.pages, before);

    let task = child.detach_dax_window(0x90000, 16 * 4096).unwrap();
    carry_out(&mut child, &mut cache, &mut child_window, task).unwrap();
    assert!(child_window.pages.is_empty());
    assert!(child.detach_dax_window(0x90000, 16 * 4096).is_none());
}

#[test]
fn cached_writes_are_seen_by_the_branch_alone() {
    let (mut cache, branch, filesystem, _) = start();
    let child_branch = cache.fork(branch).unwrap();
    let child = filesystem.child(child_branch);
    filesystem
        .write_cached(&mut cache, 3, 4090, b"across pages")
        .unwrap();
    assert_eq!(
        filesystem.read_cached(&mut cache, 3, 4090, 12).unwrap(),
        b"across pages"
    );
    assert_eq!(
        child.read_cached(&mut cache, 3, 4090, 12).unwrap(),
        [5; 12]
    );
    cache
        .with_store_mut(branch, |store| {
            assert_eq!(&store.nodes[&3][4090..4102], b"across pages");
            Ok(())
        })
        .unwrap();
}

#[test]
fn failed_file_access_says_what_failed() {
    let (mut cache, branch, filesystem, _) = start();
    let failure = filesystem
        .write_cached(&mut cache, 3, u64::MAX, b"xy")
        .unwrap_err();
    assert_eq!(failure.operation("write cached file"), "write cached file");
    assert!(matches!(
        failure.error(),
        CacheError::InvalidMapping("write range overflow")
    ));
    assert!(matches!(
        filesystem.write_cached(&mut cache, 3, 1 << 40, b"xy"),
        Err(FileFailure::Access(CacheError::InvalidMapping(
            "write extends beyond file"
        )))
    ));
    let failure = filesystem.read_cached(&mut cache, 9, 0, 1).unwrap_err();
    assert_eq!(failure.operation("read cached file"), "read cached file");
    assert!(matches!(failure.error(), CacheError::Io(IoError::Os(ENOENT))));

    cache.remove_branch(branch).unwrap();
    let failure = filesystem.read_cached(&mut cache, 3, 0, 1).unwrap_err();
    assert_eq!(failure.operation("read cached file"), "open cached file");
    assert!(matches!(failure.error(), CacheError::BranchNotFound(1)));
}

#[test]
fn shared_cache_refusals() {
    let (mut cache, branch) = SharedPageCache::new(1, 1, MemoryStore::with_node(3, vec![0; 4096]));
    assert_eq!(cache.id(), 1);
    assert!(matches!(
        cache.map_page(branch, 3, 0, MapFlags::read()),
        Err(CacheError::NodeNotOpen(3))
    ));
    cache.open(branch, 3).unwrap();
    assert!(matches!(
        cache.map_page(branch, 3, 8, MapFlags::read()),
        Err(CacheError::InvalidMapping("mapping offset must be page aligned"))
    ));
    assert!(matches!(
        cache.map_page(branch, 3, 0, MapFlags::empty()),
        Err(CacheError::InvalidMapping(
            "mapping must be readable or writable"
        ))
    ));
    let child = cache.fork(branch).unwrap();
    cache.open(child, 3).unwrap();
    let mapping = cache.map_page(branch, 3, 0, MapFlags::read()).unwrap();
    assert!(matches!(
        cache.remove_branch(branch),
        Err(CacheError::ActiveMappings)
    ));
    assert!(matches!(
        cache.map_page(branch, 3, 0, MapFlags::write()),
        Err(CacheError::PageBusy)
    ));
    assert!(matches!(
        cache.unmap(child, mapping),
        Err(CacheError::StaleMapping)
    ));
    cache.remove_branch(child).unwrap();
    assert!(matches!(
        cache.remove_branch(child),
        Err(CacheError::BranchNotFound(_))
    ));
}

#[test]
fn store_hears_of_the_first_open_and_the_last_close_of_a_branch() {
    let (mut cache, branch) = SharedPageCache::new(1, 1, MemoryStore::with_node(3, vec![0; 4096]));
    let child = cache.fork(branch).unwrap();
    for _ in 0..3 {
        cache.open(branch, 3).unwrap();
    }
    for _ in 0..3 {
        cache.close(branch, 3).unwrap();
    }
    assert_eq!(
        cache.with_store_mut(branch, |store| Ok(store.heard)).unwrap(),
        (1, 1)
    );
    assert_eq!(
        cache.with_store_mut(child, |store| Ok(store.heard)).unwrap(),
        (0, 0)
    );

    let set = |refuses: bool| {
        move |store: &mut MemoryStore| {
            store.refuses = refuses;
            Ok(())
        }
    };
    cache.with_store_mut(child, set(true)).unwrap();
    assert!(matches!(
        cache.open(child, 3),
        Err(CacheError::Io(IoError::Os(EBUSY)))
    ));
    cache.with_store_mut(child, set(false)).unwrap();
    cache.open(child, 3).unwrap();
    cache.with_store_mut(child, set(true)).unwrap();
    assert!(matches!(
        cache.close(child, 3),
        Err(CacheError::Io(IoError::Os(EBUSY)))
    ));
    assert_eq!(
        cache.with_store_mut(child, |store| Ok(store.heard)).unwrap(),
        (2, 1)
    );
    assert!(matches!(
        cache.close(child, 3),
        Err(CacheError::InvalidMapping("node is not open"))
    ));
}

#[test]
fn caches_number_their_pages_apart() {
    let (mut first, one) = SharedPageCache::new(1, 1, MemoryStore::with_node(3, vec![0; 8192]));
    let store = MemoryStore::with_node(3, vec![0; 8192]);
    let (mut second, two) = SharedPageCache::new(2, 1 << 32, store);
    first.open(one, 3).unwrap();
    second.open(two, 3).unwrap();
    let pages: Vec<u64> = [0, 4096]
        .into_iter()
        .map(|offset| first.map_page(one, 3, offset, MapFlags::read()).unwrap())
        .map(|mapping| mapping.page_id())
        .collect();
    assert_eq!(pages, vec![1, 2]);
    let mapping = second.map_page(two, 3, 0, MapFlags::read()).unwrap();
    assert_eq!(mapping.page_id(), 1 << 32);
}

#[test]
fn removed_branch_takes_no_page_from_the_others() {
    let (mut cache, branch) = SharedPageCache::new(1, 1, MemoryStore::with_node(3, vec![5; 8192]));
    let child = cache.fork(branch).unwrap();
    cache.open(branch, 3).unwrap();
    cache.open(child, 3).unwrap();
    let mapping = cache.map_page(branch, 3, 0, MapFlags::write()).unwrap();
    let kept = mapping.page_id();
    assert!(cache.write_mapped(&mapping, 0, b"kept"));
    cache.unmap(branch, mapping).unwrap();
    cache.remove_branch(child).unwrap();
    let mut bytes = [0; 4];
    assert_eq!(cache.read(branch, 3, 0, &mut bytes).unwrap(), 4);
    assert_eq!(&bytes, b"kept");
    assert_eq!(cache.read(branch, 3, 4096, &mut bytes).unwrap(), 4);
    assert_eq!(bytes, [5; 4]);
    let again = cache.map_page(branch, 3, 0, MapFlags::read()).unwrap();
    assert_eq!(again.page_id(), kept);
}

#[test]
fn attributes_of_a_node() {
    let attr = node_attr(NodeMetadata {
        id: 9,
        size: 10,
        blocks_512: 8,
        mode: 0o100644,
        links: 2,
        uid: 3,
        gid: 4,
        atime: (5, 50),
        mtime: (6, 60),
        ctime: (7, 70),
    });
    assert_eq!((attr.inode, attr.size, attr.blocks), (9, 10, 8));
    assert_eq!((attr.mode, attr.links, attr.uid, attr.gid), (0o100644, 2, 3, 4));
    assert_eq!((attr.atime, attr.mtime, attr.ctime), ((5, 50), (6, 60), (7, 70)));
    assert!(!is_directory(attr.mode));
    assert!(is_directory(0o040755));
    assert!(matches!(node_id(7), Ok(7)));
    assert!(matches!(
        node_id(1 << 32),
        Err(IoError::Os(EOVERFLOW))
    ));
}
