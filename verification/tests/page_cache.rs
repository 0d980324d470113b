use std::collections::BTreeMap;

use minidox::cache::page_cache::PageCache;
use minidox::cache::store::{CacheError, MapFlags, NodeId, NodeStore};
use minidox::fork::PAGE_SIZE;
use minidox::io::IoError;

#[derive(Default)]
struct MemoryStore {
    nodes: BTreeMap<NodeId, Vec<u8>>,
    opens: usize,
    closes: usize,
}

impl MemoryStore {
    fn with_node(node: NodeId, bytes: &[u8]) -> Self {
        Self {
            nodes: BTreeMap::from([(node, bytes.to_vec())]),
            ..Self::default()
        }
    }
}

impl NodeStore for MemoryStore {
    fn len(&mut self, node: NodeId) -> Result<u64, IoError> {
        Ok(self.nodes.get(&node).map_or(0, |data| data.len()) as u64)
    }

    fn read_node(&mut self, node: NodeId, offset: u64, buf: &mut [u8]) -> Result<usize, IoError> {
        let data = self.nodes.get(&node).map(Vec::as_slice).unwrap_or_default();
        let start = usize::try_from(offset).unwrap();
        if start >= data.len() {
            return Ok(0);
        }
        let count = buf.len().min(data.len() - start);
        buf[..count].copy_from_slice(&data[start..start + count]);
        Ok(count)
    }

    fn write_node(&mut self, node: NodeId, offset: u64, buf: &[u8]) -> Result<usize, IoError> {
        let start = usize::try_from(offset).unwrap();
        let data = self.nodes.entry(node).or_default();
        data.resize(data.len().max(start + buf.len()), 0);
        data[start..start + buf.len()].copy_from_slice(buf);
        Ok(buf.len())
    }

    fn on_open_node(&mut self, _node: NodeId) -> Result<(), IoError> {
        self.opens += 1;
        Ok(())
    }

    fn on_close_node(&mut self, _node: NodeId) -> Result<(), IoError> {
        self.closes += 1;
        Ok(())
    }
}

const PAGE: u64 = PAGE_SIZE as u64;

#[test]
fn mappings_of_one_inode_share_the_same_pages() {
    let mut cache = PageCache::new(1, MemoryStore::with_node(7, &[0; PAGE_SIZE]));
    cache.open(7).unwrap();
    cache.open(7).unwrap();
    let first = cache
        .map(7, 0, PAGE, MapFlags::read().union(MapFlags::write()))
        .unwrap();
    let second = cache.map(7, 0, PAGE, MapFlags::read()).unwrap();

    assert!(cache.write_mapped(&first, 11, b"shared"));
    let observed = cache.read_mapped(&second, 11, 6).unwrap();
    assert_eq!(observed, b"shared");

    cache.unmap(second).unwrap();
    cache.unmap(first).unwrap();
    cache.close(7).unwrap();
    cache.close(7).unwrap();
    assert_eq!(&cache.store().nodes[&7][11..17], b"shared");
    assert_eq!(cache.store().opens, 1);
    assert_eq!(cache.store().closes, 1);
}

#[test]
fn normal_write_updates_an_existing_dax_mapping() {
    let mut cache = PageCache::new(1, MemoryStore::with_node(3, &[0; PAGE_SIZE]));
    cache.open(3).unwrap();
    let mapping = cache.map(3, 0, PAGE, MapFlags::read()).unwrap();

    cache.write(3, 100, b"coherent").unwrap();
    let observed = cache.read_mapped(&mapping, 100, 8).unwrap();
    assert_eq!(observed, b"coherent");

    cache.unmap(mapping).unwrap();
    cache.close(3).unwrap();
}

#[test]
fn mapping_requires_an_open_node_and_aligned_offset() {
    let mut cache = PageCache::new(1, MemoryStore::with_node(1, b"data"));
    assert!(matches!(
        cache.map(1, 0, PAGE, MapFlags::read()),
        Err(CacheError::NodeNotOpen(1))
    ));
    cache.open(1).unwrap();
    assert!(matches!(
        cache.map(1, 1, PAGE, MapFlags::read()),
        Err(CacheError::InvalidMapping(_))
    ));
}

#[test]
fn mapping_that_nothing_may_use_is_refused() {
    let mut cache = PageCache::new(1, MemoryStore::with_node(1, &[0; PAGE_SIZE]));
    cache.open(1).unwrap();
    assert!(matches!(
        cache.map(1, 0, PAGE, MapFlags::empty()),
        Err(CacheError::InvalidMapping(_))
    ));
    assert!(matches!(
        cache.map(1, 0, 0, MapFlags::read()),
        Err(CacheError::InvalidMapping(_))
    ));
}

#[test]
fn node_is_not_mapped_once_it_is_closed() {
    let mut cache = PageCache::new(1, MemoryStore::with_node(1, b"data"));
    cache.open(1).unwrap();
    let mapping = cache.map(1, 0, PAGE, MapFlags::read()).unwrap();
    cache.close(1).unwrap();
    assert!(matches!(
        cache.map(1, 0, PAGE, MapFlags::read()),
        Err(CacheError::NodeNotOpen(1))
    ));
    cache.unmap(mapping).unwrap();
    assert!(matches!(
        cache.map(1, 0, PAGE, MapFlags::read()),
        Err(CacheError::NodeNotOpen(1))
    ));
    assert_eq!(cache.store().opens, 1);
    assert_eq!(cache.store().closes, 1);
    cache.open(1).unwrap();
    assert_eq!(cache.store().opens, 2);
    assert!(cache.map(1, 0, PAGE, MapFlags::read()).is_ok());
}

#[test]
fn mapping_of_another_cache_is_stale() {
    let mut first = PageCache::new(1, MemoryStore::with_node(1, &[0; PAGE_SIZE]));
    let mut second = PageCache::new(2, MemoryStore::with_node(1, &[0; PAGE_SIZE]));
    first.open(1).unwrap();
    second.open(1).unwrap();
    let mapping = first.map(1, 0, PAGE, MapFlags::read()).unwrap();
    assert!(matches!(second.unmap(mapping), Err(CacheError::StaleMapping)));
}

#[test]
fn node_is_let_go_after_its_last_mapping() {
    let mut cache = PageCache::new(1, MemoryStore::with_node(1, &[7; PAGE_SIZE]));
    cache.open(1).unwrap();
    let mapping = cache.map(1, 0, PAGE, MapFlags::read()).unwrap();
    cache.close(1).unwrap();
    assert_eq!(cache.store().closes, 0);
    cache.unmap(mapping).unwrap();
    assert_eq!(cache.store().closes, 1);
    assert!(matches!(cache.close(2), Err(CacheError::NodeNotOpen(2))));
}

#[test]
fn written_page_is_stored_when_the_node_is_synced() {
    let mut cache = PageCache::new(1, MemoryStore::with_node(4, &[1; 5000]));
    cache.open(4).unwrap();
    let mapping = cache.map(4, 0, 2 * PAGE, MapFlags::read_write()).unwrap();
    assert_eq!(mapping.len(), 2 * PAGE);
    assert!(!mapping.is_empty());
    assert!(cache.write_mapped(&mapping, 4990, b"across the end of the file"));
    cache.sync(4).unwrap();
    assert_eq!(cache.store().nodes[&4].len(), 5000);
    assert_eq!(&cache.store().nodes[&4][4990..], b"across the");
    cache.unmap(mapping).unwrap();
    cache.close(4).unwrap();
}

#[test]
fn cache_error_texts() {
    assert_eq!(CacheError::NodeNotOpen(12).message(""), "node 12 is not open");
    assert_eq!(
        CacheError::StaleMapping.message(""),
        "mapping no longer belongs to this cache"
    );
    assert_eq!(
        CacheError::ActiveMappings.message(""),
        "cache still has active DAX mappings"
    );
    assert_eq!(
        CacheError::PageBusy.message(""),
        "DAX page must be unmapped before copy-on-write"
    );
    assert_eq!(CacheError::InvalidMapping("odd").message(""), "odd");
    assert_eq!(
        CacheError::BranchNotFound(1_234_567_890).message(""),
        "branch 1234567890 does not exist"
    );
    assert_eq!(
        CacheError::Io(IoError::Os(5)).message("Input/output error"),
        "Input/output error"
    );
}
