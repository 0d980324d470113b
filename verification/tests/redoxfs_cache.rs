use minidox::cache::page_cache::PageCache;
use minidox::cache::store::{MapFlags, NodeId, NodeStore};
use minidox::fork::PAGE_SIZE;
use minidox::io::IoError;
use redoxfs::{Disk, DiskMemory, FileSystem, Node, TreePtr};

struct RedoxNodeStore<D: Disk> {
    fs: FileSystem<D>,
}

impl<D: Disk> NodeStore for RedoxNodeStore<D> {
    fn len(&mut self, node: NodeId) -> Result<u64, IoError> {
        self.fs
            .tx(|tx| {
                let node = tx.read_tree(TreePtr::<Node>::new(node))?;
                Ok(node.data().size())
            })
            .map_err(|error| IoError::Os(error.errno))
    }

    fn read_node(&mut self, node: NodeId, offset: u64, buf: &mut [u8]) -> Result<usize, IoError> {
        self.fs
            .tx(|tx| tx.read_node(TreePtr::<Node>::new(node), offset, buf, 1, 0))
            .map_err(|error| IoError::Os(error.errno))
    }

    fn write_node(&mut self, node: NodeId, offset: u64, buf: &[u8]) -> Result<usize, IoError> {
        self.fs
            .tx(|tx| tx.write_node(TreePtr::<Node>::new(node), offset, buf, 1, 0))
            .map_err(|error| IoError::Os(error.errno))
    }

    fn on_open_node(&mut self, node: NodeId) -> Result<(), IoError> {
        self.fs
            .tx(|tx| tx.on_open_node(TreePtr::<Node>::new(node)))
            .map_err(|error| IoError::Os(error.errno))
    }

    fn on_close_node(&mut self, node: NodeId) -> Result<(), IoError> {
        self.fs
            .tx(|tx| tx.on_close_node(TreePtr::<Node>::new(node)))
            .map_err(|error| IoError::Os(error.errno))
    }
}

#[test]
fn dax_write_is_committed_through_redoxfs() {
    let disk = DiskMemory::new(16 * 1024 * 1024);
    let mut fs = FileSystem::create(disk, None, 1, 0).unwrap();
    let node = fs
        .tx(|tx| {
            let node = tx.create_node(
                TreePtr::<Node>::root(),
                "shared",
                Node::MODE_FILE | 0o644,
                1,
                0,
            )?;
            tx.truncate_node(node.ptr(), PAGE_SIZE as u64, 1, 0)?;
            Ok(node.ptr().id())
        })
        .unwrap();

    let mut cache = PageCache::new(1, RedoxNodeStore { fs });
    cache.open(node).unwrap();
    let mapping = cache
        .map(
            node,
            0,
            PAGE_SIZE as u64,
            MapFlags::read().union(MapFlags::write()),
        )
        .unwrap();
    assert!(cache.write_mapped(&mapping, 128, b"from dax"));
    cache.unmap(mapping).unwrap();

    let mut observed = [0; 8];
    cache
        .store_mut()
        .read_node(node, 128, &mut observed)
        .unwrap();
    assert_eq!(&observed, b"from dax");
    cache.close(node).unwrap();
}
