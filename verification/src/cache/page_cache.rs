//! The page cache of one filesystem without branches.

use vstd::prelude::*;

use crate::bytes::{lay_over, lay_over_slice, zero_bytes};
#[allow(unused_imports)]
use crate::cache::store::{fully_written, next_page_boundary, readable_len, CacheError, MapFlags, NodeId, NodeStore};
#[allow(unused_imports)]
use crate::cache::store::{
    answered, file_written, len_fails, page_of, read_fails, readable, store_fails, synced_bytes, write_answered,
};
use crate::cache::visible::page_overlaid;
use crate::io::IoError;
use crate::ordered::OrdMap;
#[allow(unused_imports)]
use crate::ordered::{among, ascending, lemma_among, Key};

verus! {

/// A range of a file, mapped into a DAX window.
///
/// Every mapping of one node refers to the same pages. Dropping this value does not unmap it; pass
/// it to [`PageCache::unmap`] so that writable data is stored and the pages are released.
#[derive(Debug)]
pub struct DaxMapping {
    cache_id: u64,
    node: NodeId,
    offset: u64,
    len: u64,
    flags: MapFlags,
}

/// What a mapping refers to.
#[verifier::ext_equal]
pub struct RangeView {
    pub cache_id: u64,
    pub node: NodeId,
    pub offset: u64,
    pub len: u64,
    pub flags: MapFlags,
}

impl View for DaxMapping {
    type V = RangeView;

    closed spec fn view(&self) -> RangeView {
        RangeView { cache_id: self.cache_id, node: self.node, offset: self.offset, len: self.len, flags: self.flags }
    }
}

impl DaxMapping {
    pub fn node(&self) -> (node: NodeId)
        ensures
            node == self@.node,
    {
        self.node
    }

    pub fn file_offset(&self) -> (offset: u64)
        ensures
            offset == self@.offset,
    {
        self.offset
    }

    pub fn len(&self) -> (len: u64)
        ensures
            len == self@.len,
    {
        self.len
    }

    pub fn is_empty(&self) -> (b: bool)
        ensures
            b == (self@.len == 0),
    {
        self.len == 0
    }

    pub fn flags(&self) -> (flags: MapFlags)
        ensures
            flags == self@.flags,
    {
        self.flags
    }
}

/// One cached page of a node, and how it is mapped.
#[derive(Debug)]
struct Fmap {
    rc: usize,
    flags: MapFlags,
    version: u64,
    bytes: Vec<u8>,
}

/// What a cached page holds.
#[verifier::ext_equal]
pub struct FmapView {
    pub rc: usize,
    pub flags: MapFlags,
    pub version: u64,
    pub bytes: Seq<u8>,
}

impl View for Fmap {
    type V = FmapView;

    closed spec fn view(&self) -> FmapView {
        FmapView { rc: self.rc, flags: self.flags, version: self.version, bytes: self.bytes@ }
    }
}

/// What is cached of one node.
#[derive(Debug)]
struct FileMmapInfo {
    size: u64,
    pages: OrdMap<u64, Fmap>,
    open_fds: usize,
    version: u64,
}

/// What is cached of one node.
#[verifier::ext_equal]
pub struct FileView {
    /// How far the mapped ranges reach.
    pub size: u64,
    pub pages: Map<u64, FmapView>,
    pub open_fds: usize,
    pub version: u64,
}

impl View for FileMmapInfo {
    type V = FileView;

    closed spec fn view(&self) -> FileView {
        FileView {
            size: self.size,
            pages: self.pages@.map_values(|f: Fmap| f@),
            open_fds: self.open_fds,
            version: self.version,
        }
    }
}

impl FileView {
    /// A node of which nothing is cached.
    pub open spec fn fresh() -> FileView {
        FileView { size: 0, pages: Map::empty(), open_fds: 0, version: 0 }
    }

    pub open spec fn wf(self) -> bool {
        forall|p: u64| #[trigger] self.pages.contains_key(p) ==> p % 4096 == 0 && p + 4096 <= u64::MAX && self.pages[p].bytes.len() == 4096
    }

    /// Whether the node is open, or a page of it mapped.
    pub open spec fn in_use(self) -> bool {
        self.open_fds > 0 || exists|p: u64| #[trigger] self.pages.contains_key(p) && self.pages[p].rc > 0
    }

    /// The node once it was opened once more.
    pub open spec fn opened(self) -> FileView {
        FileView { open_fds: (self.open_fds + 1) as usize, ..self }
    }

    /// The node once it was closed once.
    pub open spec fn closed(self) -> FileView {
        FileView { open_fds: (self.open_fds - 1) as usize, ..self }
    }

    /// The node once its mapped ranges reach at least as far as `size`.
    pub open spec fn grown(self, size: int) -> FileView {
        FileView {
            size: if size > self.size {
                size as u64
            } else {
                self.size
            },
            ..self
        }
    }

    /// Whether what is cached of the page is up to date.
    pub open spec fn current(self, p: u64) -> bool {
        self.pages.contains_key(p) && self.pages[p].version == self.version
    }

    /// The page, mapped once more.
    pub open spec fn page_mapped(self, contents: Seq<u8>, p: u64, flags: MapFlags) -> FmapView {
        let bytes = if self.current(p) {
            self.pages[p].bytes
        } else {
            page_of(contents, p as int)
        };
        if self.pages.contains_key(p) {
            FmapView { rc: (self.pages[p].rc + 1) as usize, flags: self.pages[p].flags.union_spec(flags), version: self.version, bytes }
        } else {
            FmapView { rc: 1, flags, version: self.version, bytes }
        }
    }

    /// What is cached once `count` pages from `offset` on are mapped, the file holding `contents`.
    pub open spec fn range_mapped(self, contents: Seq<u8>, offset: u64, count: int, flags: MapFlags) -> FileView {
        FileView {
            pages: Map::new(
                |p: u64| self.pages.contains_key(p) || in_range(offset, count, p),
                |p: u64|
                    if in_range(offset, count, p) {
                        self.page_mapped(contents, p, flags)
                    } else {
                        self.pages[p]
                    },
            ),
            ..self
        }
    }

    /// What is cached once `data` are written at `offset` of the file.
    pub open spec fn updated(self, offset: int, data: Seq<u8>) -> FileView {
        let version = if self.version == u64::MAX {
            0
        } else {
            (self.version + 1) as u64
        };
        FileView {
            version,
            pages: Map::new(
                |p: u64| self.pages.contains_key(p),
                |p: u64|
                    if data.len() > 0 && p < offset + data.len() && offset < p + 4096 {
                        FmapView { version, bytes: page_overlaid(self.pages[p].bytes, p as int, offset, data), ..self.pages[p] }
                    } else {
                        self.pages[p]
                    },
            ),
            ..self
        }
    }
}

/// Whether `p` begins one of `count` pages from `offset` on.
pub open spec fn in_range(offset: u64, count: int, p: u64) -> bool {
    p % 4096 == 0 && offset <= p < offset + 4096 * count
}

impl FileMmapInfo {
    fn new() -> (info: Self)
        ensures
            info@ == FileView::fresh(),
            info@.wf(),
    {
        let info = FileMmapInfo { size: 0, pages: OrdMap::new(), open_fds: 0, version: 0 };
        assert(info@.pages =~= Map::<u64, FmapView>::empty());
        info
    }

    fn in_use(&self) -> (b: bool)
        ensures
            b == self@.in_use(),
    {
        if self.open_fds > 0 {
            return true;
        }
        let n: usize = self.pages.len();
        let mut i: usize = 0;
        while i < n
            invariant
                i <= n,
                n == self.pages.keys().len(),
                self.pages.listed(),
                self.open_fds == 0,
                forall|j: int| 0 <= j < i ==> self@.pages[#[trigger] self.pages.keys()[j]].rc == 0,
            decreases n - i,
        {
            if self.pages.value_at(i).rc > 0 {
                assert(self@.pages.contains_key(self.pages.keys()[i as int]));
                return true;
            }
            i += 1;
        }
        assert forall|p: u64| #[trigger] self@.pages.contains_key(p) implies self@.pages[p].rc == 0 by {
            assert(self.pages@.contains_key(p));
            assert(self.pages.keys().contains(p));
        }
        false
    }

    /// Makes the mapped ranges reach at least as far as `size`.
    fn ensure_size(&mut self, size: u64)
        ensures
            final(self)@ == old(self)@.grown(size as int),
    {
        if size > self.size {
            self.size = size;
        }
    }

    fn is_current(&self, p: u64) -> (b: bool)
        ensures
            b == self@.current(p),
    {
        match self.pages.get(&p) {
            Some(fmap) => fmap.version == self.version,
            None => false,
        }
    }

    fn put(&mut self, p: u64, fmap: Fmap)
        ensures
            final(self)@ == (FileView { pages: old(self)@.pages.insert(p, fmap@), ..old(self)@ }),
    {
        let ghost before = self@;
        self.pages.insert(p, fmap);
        assert(self@.pages =~= before.pages.insert(p, fmap@));
    }

    fn take(&mut self, p: u64) -> (r: Option<Fmap>)
        ensures
            match r {
                Some(fmap) => {
                    &&& old(self)@.pages.contains_key(p)
                    &&& fmap@ == old(self)@.pages[p]
                    &&& final(self)@ == (FileView { pages: old(self)@.pages.remove(p), ..old(self)@ })
                },
                None => !old(self)@.pages.contains_key(p) && final(self)@ == old(self)@,
            },
    {
        let ghost before = self@;
        let r = self.pages.remove(&p);
        assert(self@.pages =~= before.pages.remove(p));
        if r.is_none() {
            assert(self@.pages =~= before.pages);
        }
        r
    }

    /// Counts one more mapping of the page; `fresh` are the bytes to cache unless what is cached is
    /// up to date.
    fn map_one(&mut self, p: u64, fresh: Option<Vec<u8>>, flags: MapFlags, Ghost(contents): Ghost<Seq<u8>>)
        requires
            old(self)@.wf(),
            p % 4096 == 0,
            p + 4096 <= u64::MAX,
            old(self)@.pages.contains_key(p) ==> old(self)@.pages[p].rc < usize::MAX,
            fresh is None <==> old(self)@.current(p),
            fresh matches Some(bytes) ==> bytes@ == page_of(contents, p as int),
        ensures
            final(self)@ == (FileView { pages: old(self)@.pages.insert(p, old(self)@.page_mapped(contents, p, flags)), ..old(self)@ }),
    {
        let version: u64 = self.version;
        match self.take(p) {
            Some(fmap) => {
                let bytes = match fresh {
                    Some(bytes) => bytes,
                    None => fmap.bytes,
                };
                self.put(p, Fmap { rc: fmap.rc + 1, flags: fmap.flags.union(flags), version, bytes });
            },
            None => {
                if let Some(bytes) = fresh {
                    self.put(p, Fmap { rc: 1, flags, version, bytes });
                }
            },
        }
        assert(self@.pages =~= old(self)@.pages.insert(p, old(self)@.page_mapped(contents, p, flags)));
    }
}

/// One shared logical-file page cache for all handles and VM sessions.
///
/// The lifecycle is: open, map, sync or unmap, close. A transport installs the mapped pages of a
/// [`DaxMapping`] at [`DaxMapping::file_offset`] in a guest's DAX window.
pub struct PageCache<S> {
    id: u64,
    store: S,
    files: OrdMap<NodeId, FileMmapInfo>,
}

/// The contents of a node once the cached bytes of a page are written back.
pub open spec fn stored_back(contents: Seq<u8>, p: u64, bytes: Seq<u8>) -> Seq<u8> {
    if p >= contents.len() {
        contents
    } else {
        file_written(
            contents,
            p as int,
            bytes.take(if contents.len() - p < 4096 {
                contents.len() - p
            } else {
                4096
            }),
        )
    }
}

/// Why a range is not mapped.
pub open spec fn range_refusal(open: bool, node: NodeId, offset: u64, len: u64, flags: MapFlags) -> Option<CacheError> {
    if len == 0 {
        Some(CacheError::InvalidMapping("mapping length must be non-zero"))
    } else if offset % 4096 != 0 {
        Some(CacheError::InvalidMapping("mapping offset must be page aligned"))
    } else if !flags.readable && !flags.writable {
        Some(CacheError::InvalidMapping("mapping must be readable or writable"))
    } else if offset + page_count(len) * 4096 > u64::MAX {
        Some(CacheError::InvalidMapping("mapping range overflow"))
    } else if !open {
        Some(CacheError::NodeNotOpen(node))
    } else {
        None
    }
}

/// How many pages hold `len` bytes.
pub open spec fn page_count(len: u64) -> int {
    (len + 4095) / 4096
}

impl<S: NodeStore> PageCache<S> {
    pub closed spec fn id(self) -> u64 {
        self.id
    }

    pub closed spec fn spec_store(self) -> S {
        self.store
    }

    /// What is cached of each node that was ever opened.
    pub closed spec fn files(self) -> Map<NodeId, FileView> {
        self.files@.map_values(|info: FileMmapInfo| info@)
    }

    pub open spec fn wf(self) -> bool {
        forall|n: NodeId| #[trigger] self.files().contains_key(n) ==> self.files()[n].wf()
    }

    /// A cache with the given identity, which no other cache should have.
    pub fn new(id: u64, store: S) -> (cache: Self)
        ensures
            cache.wf(),
            cache.id() == id,
            cache.spec_store() == store,
            cache.files() == Map::<NodeId, FileView>::empty(),
    {
        let cache = PageCache { id, store, files: OrdMap::new() };
        assert(cache.files() =~= Map::<NodeId, FileView>::empty());
        cache
    }

    pub fn store(&self) -> (store: &S)
        ensures
            *store == self.spec_store(),
    {
        &self.store
    }

    pub fn store_mut(&mut self) -> (store: &mut S)
        ensures
            *store == old(self).spec_store(),
            final(self).spec_store() == *final(store),
            final(self).files() == old(self).files(),
            final(self).id() == old(self).id(),
    {
        &mut self.store
    }

    pub fn into_store(self) -> (store: S)
        ensures
            store == self.spec_store(),
    {
        self.store
    }

    /// Takes out what is cached of a node.
    fn take_file(&mut self, node: NodeId) -> (r: Option<FileMmapInfo>)
        ensures
            final(self).store == old(self).store,
            final(self).id == old(self).id,
            match r {
                Some(info) => {
                    &&& old(self).files().contains_key(node)
                    &&& info@ == old(self).files()[node]
                    &&& final(self).files() == old(self).files().remove(node)
                },
                None => !old(self).files().contains_key(node) && final(self).files() == old(self).files(),
            },
    {
        let ghost before = self.files();
        let r = self.files.remove(&node);
        assert(self.files() =~= before.remove(node));
        if r.is_none() {
            assert(self.files() =~= before);
        }
        r
    }

    fn put_file(&mut self, node: NodeId, info: FileMmapInfo)
        ensures
            final(self).store == old(self).store,
            final(self).id == old(self).id,
            final(self).files() == old(self).files().insert(node, info@),
    {
        let ghost before = self.files();
        self.files.insert(node, info);
        assert(self.files() =~= before.insert(node, info@));
    }

    /// Opens a node; the store hears of it when the node was not in use.
    pub fn open(&mut self, node: NodeId) -> (r: Result<(), CacheError>)
        requires
            old(self).wf(),
        ensures
            final(self).wf(),
            final(self).id() == old(self).id(),
            final(self).spec_store().nodes() == old(self).spec_store().nodes(),
            ({
                let was = if old(self).files().contains_key(node) {
                    old(self).files()[node]
                } else {
                    FileView::fresh()
                };
                match r {
                    Ok(()) => {
                        &&& was.open_fds < usize::MAX
                        &&& final(self).files() == old(self).files().insert(node, was.opened())
                    },
                    Err(CacheError::Io(_)) => !was.in_use() && final(self).files() == old(self).files().insert(node, was),
                    Err(e) => {
                        &&& was.open_fds == usize::MAX
                        &&& e == CacheError::InvalidMapping("open reference count overflow")
                        &&& final(self).files() == old(self).files().insert(node, was)
                    },
                }
            }),
            if old(self).files().contains_key(node) && old(self).files()[node].in_use() {
                final(self).spec_store() == old(self).spec_store()
            } else {
                exists|store: &mut S, done: Result<(), IoError>|
                    {
                        &&& #[trigger] call_ensures(S::on_open_node, (store, node), done)
                        &&& *store == old(self).spec_store()
                        &&& *final(store) == final(self).spec_store()
                        &&& r == answered(done)
                    }
            },
    {
        let ghost before = self.files();
        let mut info = match self.take_file(node) {
            Some(info) => info,
            None => FileMmapInfo::new(),
        };
        if !info.in_use() {
            if let Err(error) = self.store.on_open_node(node) {
                self.put_file(node, info);
                assert(self.files() =~= before.insert(node, info@));
                return Err(CacheError::Io(error));
            }
        }
        if info.open_fds == usize::MAX {
            self.put_file(node, info);
            assert(self.files() =~= before.insert(node, info@));
            return Err(CacheError::InvalidMapping("open reference count overflow"));
        }
        let ghost was = info@;
        info.open_fds = info.open_fds + 1;
        assert(info@.pages == was.pages);
        assert(info@.wf());
        self.put_file(node, info);
        assert(self.files() =~= before.insert(node, info@));
        Ok(())
    }

    /// Closes a node; the store hears of it when the node is no longer in use.
    pub fn close(&mut self, node: NodeId) -> (r: Result<(), CacheError>)
        requires
            old(self).wf(),
        ensures
            final(self).wf(),
            final(self).id() == old(self).id(),
            ({
                let was = old(self).files()[node];
                let closed = was.closed();
                if !old(self).files().contains_key(node) {
                    &&& r == Err::<(), CacheError>(CacheError::NodeNotOpen(node))
                    &&& final(self).files() == old(self).files()
                    &&& final(self).spec_store() == old(self).spec_store()
                } else if was.open_fds == 0 {
                    &&& r == Err::<(), CacheError>(CacheError::InvalidMapping("node is not open"))
                    &&& final(self).files() == old(self).files()
                    &&& final(self).spec_store() == old(self).spec_store()
                } else {
                    &&& final(self).files() == old(self).files().insert(node, closed)
                    &&& if closed.in_use() {
                        r is Ok && final(self).spec_store() == old(self).spec_store()
                    } else {
                        &&& exists|store: &mut S, done: Result<(), IoError>|
                            {
                                &&& #[trigger] call_ensures(S::on_close_node, (store, node), done)
                                &&& *store == old(self).spec_store()
                                &&& *final(store) == final(self).spec_store()
                                &&& r == answered(done)
                            }
                        &&& {
                            ||| final(self).spec_store().nodes() == old(self).spec_store().nodes()
                            ||| final(self).spec_store().nodes() == old(self).spec_store().nodes().remove(node)
                        }
                    }
                }
            }),
    {
        let ghost before = self.files();
        let mut info = match self.take_file(node) {
            Some(info) => info,
            None => {
                return Err(CacheError::NodeNotOpen(node));
            },
        };
        assert(before[node].wf());
        if info.open_fds == 0 {
            self.put_file(node, info);
            assert(self.files() =~= before);
            return Err(CacheError::InvalidMapping("node is not open"));
        }
        info.open_fds = info.open_fds - 1;
        assert(info@.pages == before[node].pages);
        assert(info@.wf());
        let in_use = info.in_use();
        self.put_file(node, info);
        assert(self.files() =~= before.insert(node, info@));
        if !in_use {
            if let Err(error) = self.store.on_close_node(node) {
                return Err(CacheError::Io(error));
            }
        }
        Ok(())
    }

    /// Maps a range of an open node, page by page.
    pub fn map(&mut self, node: NodeId, offset: u64, len: u64, flags: MapFlags) -> (r: Result<DaxMapping, CacheError>)
        requires
            old(self).wf(),
            forall|p: u64| old(self).files().contains_key(node) && #[trigger] old(self).files()[node].pages.contains_key(p) ==> old(self).files()[node].pages[p].rc
                < usize::MAX,
        ensures
            final(self).wf(),
            final(self).id() == old(self).id(),
            final(self).spec_store().nodes() == old(self).spec_store().nodes(),
            ({
                let was = old(self).files()[node];
                let contents = old(self).spec_store().nodes()[node];
                let open = old(self).files().contains_key(node) && was.open_fds > 0;
                let refusal = range_refusal(open, node, offset, len, flags);
                let end = offset + page_count(len) * 4096;
                let sized = was.grown(end);
                match r {
                    Ok(mapping) => {
                        &&& refusal is None
                        &&& final(self).files() == old(self).files().insert(node, sized.range_mapped(contents, offset, page_count(len), flags))
                        &&& mapping@ == (RangeView { cache_id: old(self).id(), node, offset, len: (end - offset) as u64, flags })
                    },
                    Err(CacheError::Io(error)) => {
                        &&& refusal is None
                        &&& exists|count: int|
                            {
                                &&& 0 <= count < page_count(len)
                                &&& !was.current((offset + 4096 * count) as u64)
                                &&& read_fails::<S>(
                                    old(self).spec_store().nodes(),
                                    old(self).spec_store().identities(),
                                    node,
                                    (offset + 4096 * count) as u64,
                                    4096,
                                    error,
                                )
                                &&& final(self).files() == old(self).files().insert(node, #[trigger] sized.range_mapped(contents, offset, count, flags))
                            }
                    },
                    Err(e) => {
                        &&& refusal == Some(e)
                        &&& final(self).files() == old(self).files()
                        &&& final(self).spec_store() == old(self).spec_store()
                    },
                }
            }),
    {
        if len == 0 {
            return Err(CacheError::InvalidMapping("mapping length must be non-zero"));
        }
        if offset % 4096 != 0 {
            return Err(CacheError::InvalidMapping("mapping offset must be page aligned"));
        }
        if !flags.contains(MapFlags::read()) && !flags.contains(MapFlags::write()) {
            return Err(CacheError::InvalidMapping("mapping must be readable or writable"));
        }
        let aligned_len: u64 = match next_page_boundary(len) {
            Some(aligned_len) => aligned_len,
            None => {
                return Err(CacheError::InvalidMapping("mapping range overflow"));
            },
        };
        assert(aligned_len == page_count(len) * 4096);
        let end: u64 = match offset.checked_add(aligned_len) {
            Some(end) => end,
            None => {
                return Err(CacheError::InvalidMapping("mapping range overflow"));
            },
        };
        let ghost before = self.files();
        let ghost nodes = self.store.nodes();
        let ghost contents = nodes[node];
        let mut info = match self.take_file(node) {
            Some(info) => info,
            None => {
                return Err(CacheError::NodeNotOpen(node));
            },
        };
        let ghost was = info@;
        assert(before[node].wf());
        if info.open_fds == 0 {
            self.put_file(node, info);
            assert(self.files() =~= before);
            return Err(CacheError::NodeNotOpen(node));
        }
        info.ensure_size(end);
        let ghost sized = info@;
        let ghost mut done: int = 0;
        let mut page: u64 = offset;
        proof {
            assert(info@ =~= sized.range_mapped(contents, offset, 0, flags));
        }
        while page < end
            invariant
                page == offset + 4096 * done,
                done >= 0,
                offset % 4096 == 0,
                end == offset + aligned_len,
                aligned_len == page_count(len) * 4096,
                done <= page_count(len),
                sized.wf(),
                before == old(self).files(),
                before.contains_key(node),
                was == before[node],
                was.open_fds > 0,
                self.files() == before.remove(node),
                self.id == old(self).id,
                self.store.nodes() == nodes,
                self.store.identities() == old(self).spec_store().identities(),
                nodes == old(self).spec_store().nodes(),
                contents == nodes[node],
                old(self).wf(),
                sized == was.grown(end as int),
                forall|p: u64| #[trigger] was.pages.contains_key(p) ==> was.pages[p].rc < usize::MAX,
                info@ == sized.range_mapped(contents, offset, done, flags),
                range_refusal(true, node, offset, len, flags) is None,
            decreases end - page,
        {
            assert(info@.pages.contains_key(page) <==> sized.pages.contains_key(page));
            assert(info@.current(page) <==> sized.current(page));
            assert(info@.wf()) by {
                assert forall|p: u64| #[trigger] info@.pages.contains_key(p) implies p % 4096 == 0 && p + 4096 <= u64::MAX && info@.pages[p].bytes.len() == 4096 by {
                    if sized.pages.contains_key(p) {
                        assert(sized.pages[p].bytes.len() == 4096);
                    }
                }
            }
            let ghost earlier = info@;
            let fresh = if info.is_current(page) {
                None
            } else {
                match load_page(&mut self.store, node, page) {
                    Ok(bytes) => Some(bytes),
                    Err(error) => {
                        self.put_file(node, info);
                        assert(self.files() =~= before.insert(node, info@));
                        assert((offset + 4096 * done) as u64 == page);
                        assert(!was.current((offset + 4096 * done) as u64));
                        assert(sized == was.grown(offset + page_count(len) * 4096));
                        assert(self.files() == before.insert(node, sized.range_mapped(contents, offset, done, flags)));
                        return Err(error);
                    },
                }
            };
            assert(sized.pages.contains_key(page) ==> was.pages.contains_key(page));
            info.map_one(page, fresh, flags, Ghost(contents));
            proof {
                assert(earlier.page_mapped(contents, page, flags) == sized.page_mapped(contents, page, flags));
                assert(info@ =~= sized.range_mapped(contents, offset, done + 1, flags)) by {
                    assert forall|p: u64| in_range(offset, done + 1, p) <==> in_range(offset, done, p) || p == page by {
                        if in_range(offset, done + 1, p) && p >= page {
                            assert(p - page < 4096 && (p - page) % 4096 == 0);
                        }
                    }
                }
                done = done + 1;
            }
            page = page + 4096;
        }
        assert(done == page_count(len));
        proof {
            assert(info@.wf()) by {
                assert forall|p: u64| #[trigger] info@.pages.contains_key(p) implies p % 4096 == 0 && p + 4096 <= u64::MAX && info@.pages[p].bytes.len() == 4096 by {
                    if sized.pages.contains_key(p) {
                        assert(sized.pages[p].bytes.len() == 4096);
                    }
                }
            }
        }
        self.put_file(node, info);
        assert(self.files() =~= before.insert(node, info@));
        Ok(DaxMapping { cache_id: self.id, node, offset, len: aligned_len, flags })
    }
}

/// Reads a page of a node, with zeros behind the end of the file.
fn load_page<S: NodeStore>(store: &mut S, node: NodeId, offset: u64) -> (r: Result<Vec<u8>, CacheError>)
    ensures
        final(store).nodes() == old(store).nodes(),
        final(store).identities() == old(store).identities(),
        match r {
            Ok(bytes) => old(store).nodes().contains_key(node) && bytes@ == page_of(old(store).nodes()[node], offset as int),
            Err(e) => e matches CacheError::Io(error) && read_fails::<S>(old(store).nodes(), old(store).identities(), node, offset, 4096, error),
        },
{
    let ghost contents = store.nodes()[node];
    let mut bytes = zero_bytes(4096);
    match store.read_node(node, offset, bytes.as_mut_slice()) {
        Ok(count) => {
            let mut page = zero_bytes(4096);
            lay_over(&mut page, 0, bytes.as_slice(), 0, count);
            assert(page@ =~= page_of(contents, offset as int)) by {
                assert forall|i: int| 0 <= i < count implies bytes@[i] == contents[offset + i] by {
                    assert(bytes@.take(count as int)[i] == contents.subrange(offset as int, offset + count)[i]);
                }
            }
            Ok(page)
        },
        Err(error) => Err(CacheError::Io(error)),
    }
}

/// Whether the stores differ in no node but one, which now holds `contents`.
pub open spec fn node_holds(now: Map<NodeId, Seq<u8>>, was: Map<NodeId, Seq<u8>>, node: NodeId, contents: Seq<u8>) -> bool {
    &&& others_alike(now, was, node)
    &&& was.contains_key(node) ==> now.contains_key(node)
    &&& now[node] == contents
}

/// Whether the stores differ in no node but one.
pub open spec fn others_alike(now: Map<NodeId, Seq<u8>>, was: Map<NodeId, Seq<u8>>, node: NodeId) -> bool {
    &&& forall|n: NodeId| n != node ==> (#[trigger] now.contains_key(n) <==> was.contains_key(n))
    &&& forall|n: NodeId| n != node && #[trigger] now.contains_key(n) ==> now[n] == was[n]
}

/// What is cached of a node, and what the node holds, once a cached page is written back.
pub open spec fn page_stored_back(state: (FileView, Seq<u8>), p: u64) -> (FileView, Seq<u8>) {
    let f = state.0;
    if p < state.1.len() {
        (
            FileView { pages: f.pages.insert(p, FmapView { version: f.version, ..f.pages[p] }), ..f },
            stored_back(state.1, p, f.pages[p].bytes),
        )
    } else {
        state
    }
}

/// The same, once the first `count` of the pages are written back.
pub open spec fn pages_stored_back(f: FileView, contents: Seq<u8>, pages: Seq<u64>, count: int) -> (FileView, Seq<u8>)
    decreases count,
{
    if count <= 0 {
        (f, contents)
    } else {
        page_stored_back(pages_stored_back(f, contents, pages, count - 1), pages[count - 1])
    }
}

/// The same, once a page that was mapped writable is written back.
pub open spec fn page_settled(state: (FileView, Seq<u8>), p: u64) -> (FileView, Seq<u8>) {
    if state.0.pages[p].flags.writable {
        page_stored_back(state, p)
    } else {
        state
    }
}

/// The same, once `count` pages from `offset` on are given up.
pub open spec fn range_released(f: FileView, contents: Seq<u8>, offset: u64, count: int) -> (FileView, Seq<u8>)
    decreases count,
{
    if count <= 0 {
        (f, contents)
    } else {
        let p = (offset + 4096 * (count - 1)) as u64;
        let settled = page_settled(range_released(f, contents, offset, count - 1), p);
        let page = settled.0.pages[p];
        (FileView { pages: settled.0.pages.insert(p, FmapView { rc: (page.rc - 1) as usize, ..page }), ..settled.0 }, settled.1)
    }
}

/// Whether the error is one with which writing a cached page back ends.
pub open spec fn store_back_fails<S: NodeStore>(
    nodes: Map<NodeId, Seq<u8>>,
    identities: int,
    node: NodeId,
    p: u64,
    bytes: Seq<u8>,
    error: IoError,
) -> bool {
    ||| len_fails::<S>(nodes, identities, node, error)
    ||| p < nodes[node].len() && store_fails::<S>(nodes, identities, node, p, synced_bytes(bytes, p as int, nodes[node].len() as int), error)
}

/// The same, where the node held `contents` and all others what they hold in `nodes`.
pub open spec fn store_back_fails_at<S: NodeStore>(
    nodes: Map<NodeId, Seq<u8>>,
    contents: Seq<u8>,
    identities: int,
    node: NodeId,
    p: u64,
    bytes: Seq<u8>,
    error: IoError,
) -> bool {
    exists|at: Map<NodeId, Seq<u8>>| node_holds(at, nodes, node, contents) && #[trigger] store_back_fails::<S>(at, identities, node, p, bytes, error)
}

/// Whether `pages` are, in order, the pages that were mapped writable.
pub open spec fn writable_pages(f: FileView, pages: Seq<u64>) -> bool {
    &&& ascending::<u64>(pages)
    &&& forall|p: u64| #[trigger] pages.contains(p) <==> f.pages.contains_key(p) && f.pages[p].flags.writable
}

/// Writes a cached page back to the store.
fn sync_page<S: NodeStore>(store: &mut S, node: NodeId, p: u64, info: &mut FileMmapInfo) -> (r: Result<(), CacheError>)
    requires
        old(info)@.wf(),
        old(info)@.pages.contains_key(p),
    ensures
        final(info)@.wf(),
        final(store).identities() == old(store).identities(),
        match r {
            Ok(()) => {
                let state = page_stored_back((old(info)@, old(store).nodes()[node]), p);
                &&& old(store).nodes().contains_key(node)
                &&& final(info)@ == state.0
                &&& node_holds(final(store).nodes(), old(store).nodes(), node, state.1)
                &&& final(store).nodes().contains_key(node)
            },
            Err(e) => {
                &&& final(info)@ == old(info)@
                &&& others_alike(final(store).nodes(), old(store).nodes(), node)
                &&& e matches CacheError::Io(error) && store_back_fails::<S>(
                    old(store).nodes(),
                    old(store).identities(),
                    node,
                    p,
                    old(info)@.pages[p].bytes,
                    error,
                )
            },
        },
{
    let ghost before = info@;
    let ghost contents = store.nodes()[node];
    let file_len: u64 = match store.len(node) {
        Ok(file_len) => file_len,
        Err(error) => {
            return Err(CacheError::Io(error));
        },
    };
    if p >= file_len {
        return Ok(());
    }
    let count: usize = readable_len(file_len, p, 4096);
    if let Some(mut fmap) = info.take(p) {
        let source = vstd::slice::slice_subrange(fmap.bytes.as_slice(), 0, count);
        assert(source@ =~= before.pages[p].bytes.take(count as int));
        assert(source@ == synced_bytes(before.pages[p].bytes, p as int, contents.len() as int));
        let written = store.write_node(node, p, source);
        match written {
            Err(error) => {
                info.put(p, fmap);
                assert(info@.pages =~= before.pages);
                return Err(CacheError::Io(error));
            },
            Ok(written) => {
                assert(write_answered::<S>(old(store).nodes(), old(store).identities(), node, p, source@, Ok(written)));
                if let Err(error) = fully_written(written, count) {
                    info.put(p, fmap);
                    assert(info@.pages =~= before.pages);
                    return Err(CacheError::Io(error));
                }
                assert(source@.take(count as int) =~= source@);
                fmap.version = info.version;
                info.put(p, fmap);
                assert(info@.pages =~= before.pages.insert(p, FmapView { version: before.version, ..before.pages[p] }));
                assert(info@.wf()) by {
                    assert forall|q: u64| #[trigger] info@.pages.contains_key(q) implies q % 4096 == 0 && q + 4096 <= u64::MAX && info@.pages[q].bytes.len() == 4096 by {
                        assert(before.pages.contains_key(q));
                    }
                }
            },
        }
    }
    Ok(())
}

proof fn lemma_stored_back(state: (FileView, Seq<u8>), p: u64)
    requires
        state.0.wf(),
        state.0.pages.contains_key(p),
    ensures
        page_stored_back(state, p).0.wf(),
        page_stored_back(state, p).0.pages.dom() == state.0.pages.dom(),
        page_stored_back(state, p).0.open_fds == state.0.open_fds,
        page_stored_back(state, p).0.version == state.0.version,
        forall|q: u64| #[trigger] state.0.pages.contains_key(q) ==> page_stored_back(state, p).0.pages[q].flags == state.0.pages[q].flags
            && page_stored_back(state, p).0.pages[q].rc == state.0.pages[q].rc,
{
    let w = page_stored_back(state, p).0;
    assert(w.pages.dom() =~= state.0.pages.dom());
    assert forall|q: u64| #[trigger] w.pages.contains_key(q) implies q % 4096 == 0 && q + 4096 <= u64::MAX && w.pages[q].bytes.len() == 4096 by {
        assert(state.0.pages.contains_key(q));
    }
}

impl<S: NodeStore> PageCache<S> {
    /// Writes the pages that were mapped writable back to the store.
    pub fn sync(&mut self, node: NodeId) -> (r: Result<(), CacheError>)
        requires
            old(self).wf(),
        ensures
            final(self).wf(),
            final(self).id() == old(self).id(),
            ({
                let was = old(self).files()[node];
                let nodes = old(self).spec_store().nodes();
                match r {
                    Ok(()) => {
                        &&& old(self).files().contains_key(node)
                        &&& exists|pages: Seq<u64>|
                            {
                                &&& #[trigger] writable_pages(was, pages)
                                &&& final(self).files() == old(self).files().insert(node, pages_stored_back(was, nodes[node], pages, pages.len() as int).0)
                                &&& node_holds(
                                    final(self).spec_store().nodes(),
                                    nodes,
                                    node,
                                    pages_stored_back(was, nodes[node], pages, pages.len() as int).1,
                                )
                            }
                    },
                    Err(CacheError::NodeNotOpen(closed)) => {
                        &&& closed == node
                        &&& !old(self).files().contains_key(node)
                        &&& final(self).files() == old(self).files()
                        &&& final(self).spec_store() == old(self).spec_store()
                    },
                    Err(CacheError::Io(error)) => {
                        &&& old(self).files().contains_key(node)
                        &&& others_alike(final(self).spec_store().nodes(), nodes, node)
                        &&& exists|pages: Seq<u64>, count: int|
                            {
                                let state = #[trigger] pages_stored_back(was, nodes[node], pages, count);
                                &&& #[trigger] writable_pages(was, pages)
                                &&& 0 <= count < pages.len()
                                &&& final(self).files() == old(self).files().insert(node, state.0)
                                &&& store_back_fails_at::<S>(
                                    nodes,
                                    state.1,
                                    old(self).spec_store().identities(),
                                    node,
                                    pages[count],
                                    state.0.pages[pages[count]].bytes,
                                    error,
                                )
                            }
                    },
                    Err(_) => false,
                }
            }),
    {
        let ghost before = self.files();
        let ghost nodes = self.store.nodes();
        let mut info = match self.take_file(node) {
            Some(info) => info,
            None => {
                return Err(CacheError::NodeNotOpen(node));
            },
        };
        let ghost was = info@;
        assert(before[node].wf());
        let pages = info.writable_offsets();
        let n: usize = pages.len();
        let mut i: usize = 0;
        while i < n
            invariant
                i <= n,
                n == pages@.len(),
                before == old(self).files(),
                before.contains_key(node),
                was == before[node],
                was.wf(),
                old(self).wf(),
                self.files() == before.remove(node),
                self.id == old(self).id,
                nodes == old(self).spec_store().nodes(),
                self.store.identities() == old(self).spec_store().identities(),
                writable_pages(was, pages@),
                info@ == pages_stored_back(was, nodes[node], pages@, i as int).0,
                info@.wf(),
                info@.pages.dom() == was.pages.dom(),
                node_holds(self.store.nodes(), nodes, node, pages_stored_back(was, nodes[node], pages@, i as int).1),
            decreases n - i,
        {
            let p: u64 = pages[i];
            assert(pages@.contains(p));
            assert(was.pages.dom().contains(p));
            assert(info@.pages.contains_key(p));
            proof {
                lemma_stored_back((info@, self.store.nodes()[node]), p);
            }
            if let Err(error) = sync_page(&mut self.store, node, p, &mut info) {
                self.put_file(node, info);
                assert(self.files() =~= before.insert(node, info@));
                assert(self.files() == before.insert(node, pages_stored_back(was, nodes[node], pages@, i as int).0));
                return Err(error);
            }
            i += 1;
        }
        self.put_file(node, info);
        assert(self.files() =~= before.insert(node, info@));
        Ok(())
    }
}

impl FileMmapInfo {
    /// The pages that were mapped writable, in order.
    fn writable_offsets(&self) -> (pages: Vec<u64>)
        ensures
            writable_pages(self@, pages@),
    {
        let n: usize = self.pages.len();
        let mut pages: Vec<u64> = Vec::new();
        let mut i: usize = 0;
        while i < n
            invariant
                i <= n,
                n == self.pages.keys().len(),
                self.pages.listed(),
                ascending::<u64>(pages@),
                forall|a: int| 0 <= a < pages@.len() ==> among(self.pages.keys(), i as int, #[trigger] pages@[a]),
                forall|p: u64| #[trigger] pages@.contains(p) <==> self@.pages[p].flags.writable && among(self.pages.keys(), i as int, p),
            decreases n - i,
        {
            let ghost earlier = pages@;
            proof {
                lemma_among(self.pages.keys(), i as int);
            }
            let p: u64 = *self.pages.key_at(i);
            if self.pages.value_at(i).flags.contains(MapFlags::write()) {
                assert forall|a: int| 0 <= a < earlier.len() implies u64::less(#[trigger] earlier[a], p) by {
                    let j = choose|j: int| 0 <= j < i && self.pages.keys()[j] == earlier[a];
                    assert(u64::less(self.pages.keys()[j], self.pages.keys()[i as int]));
                }
                pages.push(p);
                assert forall|q: u64| #[trigger] pages@.contains(q) <==> earlier.contains(q) || q == p by {
                    if earlier.contains(q) {
                        let a = choose|a: int| 0 <= a < earlier.len() && earlier[a] == q;
                        assert(pages@[a] == q);
                    }
                    if q == p {
                        assert(pages@[earlier.len() as int] == q);
                    }
                }
            }
            i += 1;
        }
        assert forall|p: u64| #[trigger] pages@.contains(p) <==> self@.pages.contains_key(p) && self@.pages[p].flags.writable by {
            assert(self.pages@.contains_key(p) <==> self.pages.keys().contains(p));
        }
        pages
    }
}

/// Whether a mapping is of whole pages.
pub open spec fn whole_pages(mapping: RangeView) -> bool {
    mapping.offset % 4096 == 0 && mapping.len % 4096 == 0 && mapping.offset + mapping.len <= u64::MAX
}

/// Whether the page at `p`, once written back, cannot be given up.
pub open spec fn page_stale(state: (FileView, Seq<u8>), p: u64) -> bool {
    !state.0.pages.contains_key(p) || state.0.pages[p].rc == 0
}

impl<S: NodeStore> PageCache<S> {
    /// Gives up a mapping: pages that were mapped writable are written back, and the store hears of
    /// it when the node is no longer in use.
    pub fn unmap(&mut self, mapping: DaxMapping) -> (r: Result<(), CacheError>)
        requires
            old(self).wf(),
            whole_pages(mapping@),
        ensures
            final(self).wf(),
            final(self).id() == old(self).id(),
            ({
                let node = mapping@.node;
                let files = old(self).files();
                let was = files[node];
                let nodes = old(self).spec_store().nodes();
                let now = final(self).spec_store().nodes();
                let total = mapping@.len as int / 4096;
                let all = range_released(was, nodes[node], mapping@.offset, total);
                if mapping@.cache_id != old(self).id() {
                    &&& r == Err::<(), CacheError>(CacheError::StaleMapping)
                    &&& final(self).files() == files
                    &&& final(self).spec_store() == old(self).spec_store()
                } else if !files.contains_key(node) {
                    &&& r == Err::<(), CacheError>(CacheError::NodeNotOpen(node))
                    &&& final(self).files() == files
                    &&& final(self).spec_store() == old(self).spec_store()
                } else {
                    match r {
                        Ok(()) => {
                            &&& final(self).files() == files.insert(node, all.0)
                            &&& released_throughout(was, nodes[node], mapping@.offset, total)
                            &&& if all.0.in_use() {
                                node_holds(now, nodes, node, all.1)
                            } else {
                                &&& node_holds(now, nodes, node, all.1) || others_alike(now, nodes, node) && !now.contains_key(node)
                                &&& exists|store: &mut S, done: Result<(), IoError>|
                                    {
                                        &&& #[trigger] call_ensures(S::on_close_node, (store, node), done)
                                        &&& node_holds((*store).nodes(), nodes, node, all.1)
                                        &&& *final(store) == final(self).spec_store()
                                        &&& done is Ok
                                    }
                            }
                        },
                        Err(CacheError::StaleMapping) => exists|count: int|
                            {
                                let state = #[trigger] range_released(was, nodes[node], mapping@.offset, count);
                                let p = (mapping@.offset + 4096 * count) as u64;
                                let settled = if state.0.pages.contains_key(p) {
                                    page_settled(state, p)
                                } else {
                                    state
                                };
                                &&& 0 <= count < total
                                &&& released_throughout(was, nodes[node], mapping@.offset, count)
                                &&& page_stale(state, p)
                                &&& final(self).files() == files.insert(node, settled.0)
                                &&& node_holds(now, nodes, node, settled.1)
                            },
                        Err(CacheError::Io(error)) => others_alike(now, nodes, node) && exists|count: int|
                            {
                                let state = #[trigger] range_released(was, nodes[node], mapping@.offset, count);
                                &&& 0 <= count <= total
                                &&& released_throughout(was, nodes[node], mapping@.offset, count)
                                &&& count == total ==> !state.0.in_use() && exists|store: &mut S, done: Result<(), IoError>|
                                    {
                                        &&& #[trigger] call_ensures(S::on_close_node, (store, node), done)
                                        &&& node_holds((*store).nodes(), nodes, node, state.1)
                                        &&& *final(store) == final(self).spec_store()
                                        &&& done == Err::<(), IoError>(error)
                                    }
                                &&& count < total ==> {
                                    let p = (mapping@.offset + 4096 * count) as u64;
                                    &&& state.0.pages.contains_key(p)
                                    &&& state.0.pages[p].flags.writable
                                    &&& store_back_fails_at::<S>(
                                        nodes,
                                        state.1,
                                        old(self).spec_store().identities(),
                                        node,
                                        p,
                                        state.0.pages[p].bytes,
                                        error,
                                    )
                                }
                                &&& final(self).files() == files.insert(node, state.0)
                            },
                        Err(_) => false,
                    }
                }
            }),
    {
        if mapping.cache_id != self.id {
            return Err(CacheError::StaleMapping);
        }
        let node: NodeId = mapping.node;
        let offset: u64 = mapping.offset;
        let ghost before = self.files();
        let ghost nodes = self.store.nodes();
        let ghost contents = nodes[node];
        let mut info = match self.take_file(node) {
            Some(info) => info,
            None => {
                return Err(CacheError::NodeNotOpen(node));
            },
        };
        let ghost was = info@;
        assert(before[node].wf());
        let end: u64 = offset + mapping.len;
        let ghost total = mapping.len as int / 4096;
        let ghost mut done: int = 0;
        let mut page: u64 = offset;
        while page < end
            invariant
                page == offset + 4096 * done,
                0 <= done <= total,
                end == offset + 4096 * total,
                total == mapping@.len as int / 4096,
                offset == mapping@.offset,
                node == mapping@.node,
                mapping@.cache_id == old(self).id(),
                before == old(self).files(),
                before.contains_key(node),
                was == before[node],
                was.wf(),
                old(self).wf(),
                self.files() == before.remove(node),
                self.id == old(self).id,
                nodes == old(self).spec_store().nodes(),
                self.store.identities() == old(self).spec_store().identities(),
                contents == nodes[node],
                info@.wf(),
                info@ == range_released(was, contents, offset, done).0,
                node_holds(self.store.nodes(), nodes, node, range_released(was, contents, offset, done).1),
                released_throughout(was, contents, offset, done),
            decreases end - page,
        {
            let ghost state = range_released(was, contents, offset, done);
            assert((offset + 4096 * done) as u64 == page);
            let writable: bool = match info.pages.get(&page) {
                Some(fmap) => {
                    assert(fmap@ == info@.pages[page]);
                    fmap.flags.contains(MapFlags::write())
                },
                None => {
                    self.put_file(node, info);
                    assert(self.files() =~= before.insert(node, state.0));
                    return Err(CacheError::StaleMapping);
                },
            };
            assert(info@.pages.contains_key(page));
            proof {
                lemma_stored_back(state, page);
            }
            if writable {
                if let Err(error) = sync_page(&mut self.store, node, page, &mut info) {
                    self.put_file(node, info);
                    assert(self.files() =~= before.insert(node, state.0));
                    return Err(error);
                }
            }
            let ghost settled = page_settled(state, page);
            assert(info@ == settled.0);
            assert(settled.0.pages.dom().contains(page));
            assert(info@.pages.contains_key(page));
            if let Some(mut fmap) = info.take(page) {
                if fmap.rc == 0 {
                    info.put(page, fmap);
                    assert(info@.pages =~= settled.0.pages);
                    self.put_file(node, info);
                    assert(self.files() =~= before.insert(node, settled.0));
                    return Err(CacheError::StaleMapping);
                }
                fmap.rc = fmap.rc - 1;
                info.put(page, fmap);
            }
            proof {
                done = done + 1;
                let next = range_released(was, contents, offset, done);
                assert(info@ =~= next.0) by {
                    assert(info@.pages =~= next.0.pages);
                }
                assert(info@.wf()) by {
                    assert forall|q: u64| #[trigger] info@.pages.contains_key(q) implies q % 4096 == 0 && q + 4096 <= u64::MAX && info@.pages[q].bytes.len() == 4096 by {
                        assert(settled.0.pages.contains_key(q));
                    }
                }
                assert(released_throughout(was, contents, offset, done));
            }
            page = page + 4096;
        }
        assert(done == total);
        let in_use = info.in_use();
        self.put_file(node, info);
        assert(self.files() =~= before.insert(node, info@));
        if !in_use {
            if let Err(error) = self.store.on_close_node(node) {
                assert(self.files() == before.insert(node, range_released(was, contents, offset, total).0));
                return Err(CacheError::Io(error));
            }
        }
        Ok(())
    }

    /// Whether the mapping is of this cache and its pages are there.
    fn holds_range(&self, mapping: &DaxMapping, offset: u64, len: u64) -> (b: bool)
        ensures
            b == range_held(*self, mapping@, offset as int, len as int),
    {
        if mapping.cache_id != self.id || offset > mapping.len || len > mapping.len - offset {
            return false;
        }
        match self.files.get(&mapping.node) {
            None => false,
            Some(info) => {
                assert(info@ == self.files()[mapping.node]);
                if len == 0 {
                    return true;
                }
                if mapping.offset > u64::MAX - mapping.len {
                    return false;
                }
                let start: u64 = (mapping.offset + offset) / 4096 * 4096;
                let last: u64 = (mapping.offset + offset + len - 1) / 4096 * 4096;
                let mut page: u64 = start;
                loop
                    invariant
                        info@ == self.files()[mapping@.node],
                        self.files().contains_key(mapping@.node),
                        mapping@.cache_id == self.id(),
                        offset + len <= mapping@.len,
                        len > 0,
                        mapping@.offset + mapping@.len <= u64::MAX,
                        start == (mapping@.offset + offset) / 4096 * 4096,
                        last == (mapping@.offset + offset + len - 1) / 4096 * 4096,
                        page % 4096 == 0,
                        start <= page <= last,
                        forall|q: u64| q % 4096 == 0 && start <= q < page ==> #[trigger] info@.pages.contains_key(q),
                    decreases last - page,
                {
                    if !info.pages.contains_key(&page) {
                        assert(!info@.pages.contains_key(page));
                        return false;
                    }
                    assert(info@.pages.contains_key(page));
                    if page == last {
                        assert forall|q: u64| q % 4096 == 0 && start <= q <= last implies #[trigger] info@.pages.contains_key(q) by {}
                        return true;
                    }
                    assert(page + 4096 <= last);
                    page = page + 4096;
                    assert forall|q: u64| q % 4096 == 0 && start <= q < page implies #[trigger] info@.pages.contains_key(q) by {
                        if q >= page - 4096 {
                            assert(q == page - 4096);
                        }
                    }
                }
            },
        }
    }
}

/// Whether a mapping is of this cache, and its pages from `offset` on for `len` bytes are there.
pub open spec fn range_held<S: NodeStore>(cache: PageCache<S>, mapping: RangeView, offset: int, len: int) -> bool {
    &&& mapping.cache_id == cache.id()
    &&& offset + len <= mapping.len
    &&& cache.files().contains_key(mapping.node)
    &&& len > 0 ==> mapping.offset + mapping.len <= u64::MAX && forall|q: u64|
        q % 4096 == 0 && (mapping.offset + offset) / 4096 * 4096 <= q <= (mapping.offset + offset + len - 1) / 4096 * 4096
            ==> #[trigger] cache.files()[mapping.node].pages.contains_key(q)
}

/// Whether each of the first `count` pages could be given up in its turn.
pub open spec fn released_throughout(f: FileView, contents: Seq<u8>, offset: u64, count: int) -> bool {
    forall|i: int| 0 <= i < count ==> !page_stale(#[trigger] range_released(f, contents, offset, i), (offset + 4096 * i) as u64)
}

impl FileView {
    /// The cached byte at a position of the file.
    pub open spec fn cached_byte(self, position: int) -> u8 {
        self.pages[(position / 4096 * 4096) as u64].bytes[position % 4096]
    }

    /// Whether all pages that a range reaches satisfy `current`.
    pub open spec fn all_current(self, offset: int, len: int) -> bool {
        forall|p: u64| p % 4096 == 0 && p < offset + len && offset < p + 4096 ==> #[trigger] self.current(p)
    }

    /// Whether all pages that a range reaches are there.
    pub open spec fn all_there(self, offset: int, len: int) -> bool {
        forall|p: u64| p % 4096 == 0 && p < offset + len && offset < p + 4096 ==> #[trigger] self.pages.contains_key(p)
    }

    /// What is cached once `data` are written at `offset` through a mapping.
    pub open spec fn overlaid(self, offset: int, data: Seq<u8>) -> FileView {
        FileView {
            pages: Map::new(
                |p: u64| self.pages.contains_key(p),
                |p: u64|
                    if data.len() > 0 && p < offset + data.len() && offset < p + 4096 {
                        FmapView { bytes: page_overlaid(self.pages[p].bytes, p as int, offset, data), ..self.pages[p] }
                    } else {
                        self.pages[p]
                    },
            ),
            ..self
        }
    }
}

impl FileMmapInfo {
    /// Reads cached bytes.
    fn copy_out(&self, offset: u64, count: usize) -> (bytes: Vec<u8>)
        requires
            self@.wf(),
            offset + count <= u64::MAX,
            self@.all_there(offset as int, count as int),
        ensures
            bytes@ == Seq::new(count as nat, |i: int| self@.cached_byte(offset + i)),
    {
        let mut bytes: Vec<u8> = Vec::new();
        let end: u64 = offset + count as u64;
        let mut cursor: u64 = offset;
        while cursor < end
            invariant
                self@.wf(),
                end == offset + count,
                offset <= cursor <= end,
                self@.all_there(offset as int, count as int),
                bytes@ == Seq::new((cursor - offset) as nat, |i: int| self@.cached_byte(offset + i)),
            decreases end - cursor,
        {
            let page: u64 = cursor / 4096 * 4096;
            let within: usize = (cursor - page) as usize;
            let left: u64 = end - cursor;
            let chunk: usize = if left < (4096 - within) as u64 {
                left as usize
            } else {
                4096 - within
            };
            assert(self@.pages.contains_key(page));
            assert(self.pages@.contains_key(page));
            if let Some(fmap) = self.pages.get(&page) {
                assert(fmap@ == self@.pages[page]);
                let piece = vstd::slice::slice_subrange(fmap.bytes.as_slice(), within, within + chunk);
                let ghost earlier = bytes@;
                bytes.extend_from_slice(piece);
                assert(bytes@ =~= earlier + piece@);
                assert(bytes@ =~= Seq::new((cursor + chunk - offset) as nat, |i: int| self@.cached_byte(offset + i))) by {
                    assert forall|i: int| cursor - offset <= i < cursor + chunk - offset implies bytes@[i] == self@.cached_byte(offset + i) by {
                        assert((offset + i) / 4096 * 4096 == page);
                        assert((offset + i) % 4096 == within + (i - (cursor - offset)));
                    }
                }
            }
            cursor = cursor + chunk as u64;
        }
        bytes
    }

    /// Lays `data` over the cached pages that they reach; with `bump` the pages are up to date.
    fn overlay(&mut self, offset: u64, data: &[u8], bump: bool)
        requires
            old(self)@.wf(),
            offset + data@.len() <= u64::MAX,
        ensures
            final(self)@.wf(),
            final(self)@.pages.dom() == old(self)@.pages.dom(),
            final(self)@ == (FileView { pages: final(self)@.pages, ..old(self)@ }),
            forall|p: u64| #[trigger] old(self)@.pages.contains_key(p) ==> final(self)@.pages[p] == old(self)@.page_overlaid_with(p, offset as int, data@, bump),
    {
        let ghost before = self@;
        let len: usize = data.len();
        let end: u64 = offset + len as u64;
        let n: usize = self.pages.len();
        let mut keys: Vec<u64> = Vec::new();
        let mut i: usize = 0;
        while i < n
            invariant
                i <= n,
                *self == *old(self),
                n == self.pages.keys().len(),
                keys@ == self.pages.keys().take(i as int),
            decreases n - i,
        {
            keys.push(*self.pages.key_at(i));
            assert(self.pages.keys().take(i + 1) =~= self.pages.keys().take(i as int).push(self.pages.keys()[i as int]));
            i += 1;
        }
        assert(keys@ =~= self.pages.keys());
        assert forall|p: u64| #[trigger] before.pages.contains_key(p) <==> among(keys@, n as int, p) by {
            assert(self.pages@.contains_key(p) <==> self.pages.keys().contains(p));
        }
        i = 0;
        while i < n
            invariant
                i <= n,
                n == keys@.len(),
                len == data@.len(),
                end == offset + len,
                before == old(self)@,
                before.wf(),
                forall|p: u64| #[trigger] before.pages.contains_key(p) <==> among(keys@, n as int, p),
                forall|a: int, b: int| 0 <= a < b < keys@.len() ==> keys@[a] != keys@[b],
                self@ == (FileView { pages: self@.pages, ..before }),
                forall|p: u64| #[trigger] self@.pages.contains_key(p) <==> before.pages.contains_key(p),
                forall|p: u64| #[trigger] self@.pages.contains_key(p) ==> self@.pages[p] == (if among(keys@, i as int, p) {
                    before.page_overlaid_with(p, offset as int, data@, bump)
                } else {
                    before.pages[p]
                }),
            decreases n - i,
        {
            proof {
                lemma_among(keys@, i as int);
            }
            let p: u64 = keys[i];
            let ghost earlier = self@;
            assert(among(keys@, n as int, p));
            assert(before.pages.contains_key(p));
            assert(!among(keys@, i as int, p));
            assert(self@.pages.contains_key(p));
            assert(self@.pages[p] == before.pages[p]);
            let page_end: u64 = p + 4096;
            let from: u64 = if offset > p {
                offset
            } else {
                p
            };
            let to: u64 = if end < page_end {
                end
            } else {
                page_end
            };
            if from < to {
                let version: u64 = self.version;
                if let Some(mut fmap) = self.take(p) {
                    lay_over(&mut fmap.bytes, (from - p) as usize, data, (from - offset) as usize, (to - from) as usize);
                    if bump {
                        fmap.version = version;
                    }
                    assert(fmap.bytes@ =~= page_overlaid(before.pages[p].bytes, p as int, offset as int, data@));
                    self.put(p, fmap);
                }
            }
            assert(self@.pages[p] =~= before.page_overlaid_with(p, offset as int, data@, bump));
            i += 1;
        }
        assert(self@.pages.dom() =~= before.pages.dom());
    }
}

impl FileView {
    /// A cached page once `data` are laid over the file at `offset`.
    pub open spec fn page_overlaid_with(self, p: u64, offset: int, data: Seq<u8>, bump: bool) -> FmapView {
        if data.len() > 0 && p < offset + data.len() && offset < p + 4096 {
            FmapView {
                version: if bump {
                    self.version
                } else {
                    self.pages[p].version
                },
                bytes: page_overlaid(self.pages[p].bytes, p as int, offset, data),
                ..self.pages[p]
            }
        } else {
            self.pages[p]
        }
    }
}

impl<S: NodeStore> PageCache<S> {
    /// Reads from a node: from the cache where all that is read is cached and up to date, else from
    /// the store.
    pub fn read(&mut self, node: NodeId, offset: u64, buf: &mut [u8]) -> (r: Result<usize, CacheError>)
        requires
            old(self).wf(),
        ensures
            final(self).wf(),
            final(self).id() == old(self).id(),
            final(self).files() == old(self).files(),
            final(self).spec_store().nodes() == old(self).spec_store().nodes(),
            final(buf)@.len() == old(buf)@.len(),
            ({
                let contents = old(self).spec_store().nodes()[node];
                let wanted = readable(contents, offset as int, old(buf)@.len() as int);
                let file = old(self).files()[node];
                let from_cache = old(self).files().contains_key(node) && file.all_current(offset as int, wanted);
                match r {
                    Ok(count) => {
                        &&& old(self).spec_store().nodes().contains_key(node)
                        &&& count == wanted
                        &&& forall|i: int| 0 <= i < count ==> #[trigger] final(buf)@[i] == (if from_cache {
                            file.cached_byte(offset + i)
                        } else {
                            contents[offset + i]
                        })
                        &&& forall|i: int| count <= i < old(buf)@.len() ==> #[trigger] final(buf)@[i] == old(buf)@[i]
                    },
                    Err(CacheError::InvalidMapping(why)) => {
                        &&& why == "read range overflow"
                        &&& old(self).files().contains_key(node)
                        &&& wanted > 0
                        &&& offset + wanted > u64::MAX - 4095
                    },
                    Err(CacheError::Io(error)) => {
                        let nodes = old(self).spec_store().nodes();
                        let identities = old(self).spec_store().identities();
                        ||| len_fails::<S>(nodes, identities, node, error)
                        ||| wanted > 0 && !from_cache && read_fails::<S>(nodes, identities, node, offset, wanted, error)
                    },
                    Err(_) => false,
                }
            }),
    {
        let ghost files = self.files();
        let ghost contents = self.store.nodes()[node];
        let file_len: u64 = match self.store.len(node) {
            Ok(file_len) => file_len,
            Err(error) => {
                return Err(CacheError::Io(error));
            },
        };
        let buf_len: usize = buf.len();
        if offset >= file_len || buf_len == 0 {
            return Ok(0);
        }
        let count: usize = readable_len(file_len, offset, buf_len);
        if let Some(info) = self.files.get(&node) {
            assert(info@ == files[node]);
            assert(files.contains_key(node));
            let start: u64 = offset / 4096 * 4096;
            let end: u64 = match next_page_boundary(offset + count as u64) {
                Some(end) => end,
                None => {
                    return Err(CacheError::InvalidMapping("read range overflow"));
                },
            };
            if info.range_is_current(start, end) {
                assert(info@.all_current(offset as int, count as int)) by {
                    assert forall|p: u64| p % 4096 == 0 && p < offset + count && offset < p + 4096 implies #[trigger] info@.current(p) by {
                        assert(start <= p < end);
                    }
                }
                assert(info@.all_there(offset as int, count as int)) by {
                    assert forall|p: u64| p % 4096 == 0 && p < offset + count && offset < p + 4096 implies #[trigger] info@.pages.contains_key(p) by {
                        assert(info@.current(p));
                    }
                }
                let bytes = info.copy_out(offset, count);
                lay_over_slice(buf, 0, bytes.as_slice());
                return Ok(count);
            }
            assert(!info@.all_current(offset as int, count as int)) by {
                let p = choose|p: u64| p % 4096 == 0 && start <= p < end && !#[trigger] info@.current(p);
                assert(p < offset + count && offset < p + 4096);
            }
        }
        let mut bytes = zero_bytes(count);
        match self.store.read_node(node, offset, bytes.as_mut_slice()) {
            Ok(read) => {
                assert(read == count);
                lay_over_slice(buf, 0, bytes.as_slice());
                assert forall|i: int| 0 <= i < count implies #[trigger] buf@[i] == contents[offset + i] by {
                    assert(bytes@.take(read as int)[i] == contents.subrange(offset as int, offset + read)[i]);
                }
                Ok(read)
            },
            Err(error) => Err(CacheError::Io(error)),
        }
    }

    /// Writes to a node's store, and brings the cached pages up to date.
    pub fn write(&mut self, node: NodeId, offset: u64, buf: &[u8]) -> (r: Result<usize, CacheError>)
        requires
            old(self).wf(),
        ensures
            final(self).wf(),
            final(self).id() == old(self).id(),
            ({
                let nodes = old(self).spec_store().nodes();
                let now = final(self).spec_store().nodes();
                let files = old(self).files();
                let file = files[node];
                match r {
                    Ok(written) => {
                        let data = buf@.take(written as int);
                        &&& written <= buf@.len()
                        &&& nodes.contains_key(node)
                        &&& now == nodes.insert(node, file_written(nodes[node], offset as int, data))
                        &&& final(self).files() == (if files.contains_key(node) {
                            files.insert(node, file.updated(offset as int, data))
                        } else {
                            files
                        })
                        &&& files.contains_key(node) ==> offset + written <= u64::MAX
                    },
                    Err(CacheError::InvalidMapping(why)) => {
                        &&& why == "write range overflow"
                        &&& files.contains_key(node)
                        &&& nodes.contains_key(node)
                        &&& final(self).files() == files.insert(node, file.updated(0, Seq::empty()))
                        &&& exists|written: int|
                            {
                                &&& 0 <= written <= buf@.len()
                                &&& offset + written > u64::MAX
                                &&& now == nodes.insert(node, #[trigger] file_written(nodes[node], offset as int, buf@.take(written)))
                            }
                    },
                    Err(CacheError::Io(error)) => {
                        &&& final(self).files() == files
                        &&& others_alike(now, nodes, node)
                        &&& write_answered::<S>(nodes, old(self).spec_store().identities(), node, offset, buf@, Err(error))
                    },
                    Err(_) => false,
                }
            }),
    {
        let ghost files = self.files();
        let ghost nodes = self.store.nodes();
        let written: usize = match self.store.write_node(node, offset, buf) {
            Ok(written) => written,
            Err(error) => {
                return Err(CacheError::Io(error));
            },
        };
        if let Some(mut info) = self.take_file(node) {
            let ghost was = info@;
            assert(files[node].wf());
            info.version = info.version.wrapping_add(1);
            let ghost bumped = info@;
            assert(bumped.pages == was.pages);
            assert(bumped.wf());
            if offset > u64::MAX - written as u64 {
                assert(info@.pages =~= was.updated(0, Seq::empty()).pages);
                self.put_file(node, info);
                assert(self.files() =~= files.insert(node, was.updated(0, Seq::empty())));
                return Err(CacheError::InvalidMapping("write range overflow"));
            }
            info.overlay(offset, vstd::slice::slice_subrange(buf, 0, written), true);
            assert(buf@.subrange(0, written as int) =~= buf@.take(written as int));
            assert(info@.pages =~= was.updated(offset as int, buf@.take(written as int)).pages) by {
                assert forall|p: u64| info@.pages.contains_key(p) <==> was.pages.contains_key(p) by {
                    assert(info@.pages.dom().contains(p) <==> bumped.pages.dom().contains(p));
                }
            }
            self.put_file(node, info);
            assert(self.files() =~= files.insert(node, was.updated(offset as int, buf@.take(written as int))));
        }
        Ok(written)
    }

    /// Reads through a mapping, from `offset` within it; nothing where the mapping is no longer one
    /// of this cache.
    pub fn read_mapped(&self, mapping: &DaxMapping, offset: u64, len: usize) -> (r: Option<Vec<u8>>)
        requires
            self.wf(),
        ensures
            r is Some <==> range_held(*self, mapping@, offset as int, len as int),
            r matches Some(bytes) ==> bytes@ == Seq::new(
                len as nat,
                |i: int| self.files()[mapping@.node].cached_byte(mapping@.offset + offset + i),
            ),
    {
        if !self.holds_range(mapping, offset, len as u64) {
            return None;
        }
        if len == 0 {
            let none: Vec<u8> = Vec::new();
            assert(none@ =~= Seq::new(0nat, |i: int| self.files()[mapping@.node].cached_byte(mapping@.offset + offset + i)));
            return Some(none);
        }
        assert(self.files@.contains_key(mapping.node));
        match self.files.get(&mapping.node) {
            Some(info) => {
                assert(info@ == self.files()[mapping.node]);
                assert(self.files().contains_key(mapping.node));
                let at: u64 = mapping.offset + offset;
                assert(info@.all_there(at as int, len as int));
                let bytes = info.copy_out(at, len);
                assert(bytes@ =~= Seq::new(len as nat, |i: int| self.files()[mapping@.node].cached_byte(mapping@.offset + offset + i)));
                Some(bytes)
            },
            None => None,
        }
    }

    /// Writes through a writable mapping, from `offset` within it; refused where the mapping is no
    /// longer one of this cache.
    pub fn write_mapped(&mut self, mapping: &DaxMapping, offset: u64, bytes: &[u8]) -> (done: bool)
        requires
            old(self).wf(),
        ensures
            final(self).wf(),
            final(self).id() == old(self).id(),
            final(self).spec_store() == old(self).spec_store(),
            done == (range_held(*old(self), mapping@, offset as int, bytes@.len() as int) && mapping@.flags.writable),
            final(self).files() == (if done && bytes@.len() > 0 {
                old(self).files().insert(
                    mapping@.node,
                    old(self).files()[mapping@.node].overlaid(mapping@.offset + offset, bytes@),
                )
            } else {
                old(self).files()
            }),
    {
        let len: usize = bytes.len();
        if !self.holds_range(mapping, offset, len as u64) || !mapping.flags.contains(MapFlags::write()) {
            return false;
        }
        if len == 0 {
            return true;
        }
        let ghost files = self.files();
        let node: NodeId = mapping.node;
        if let Some(mut info) = self.take_file(node) {
            let ghost was = info@;
            assert(files[node].wf());
            let at: u64 = mapping.offset + offset;
            info.overlay(at, bytes, false);
            assert(info@.pages =~= was.overlaid(at as int, bytes@).pages) by {
                assert forall|p: u64| info@.pages.contains_key(p) <==> was.pages.contains_key(p) by {
                    assert(info@.pages.dom().contains(p) <==> was.pages.dom().contains(p));
                }
            }
            self.put_file(node, info);
            assert(self.files() =~= files.insert(node, was.overlaid(at as int, bytes@)));
        }
        true
    }
}

impl FileMmapInfo {
    /// Whether every page from `start` up to `end` is cached and up to date.
    fn range_is_current(&self, start: u64, end: u64) -> (b: bool)
        requires
            start % 4096 == 0,
            end % 4096 == 0,
            start <= end,
        ensures
            b == (forall|p: u64| p % 4096 == 0 && start <= p < end ==> #[trigger] self@.current(p)),
    {
        let mut page: u64 = start;
        while page < end
            invariant
                page % 4096 == 0,
                start % 4096 == 0,
                end % 4096 == 0,
                start <= page <= end,
                forall|p: u64| p % 4096 == 0 && start <= p < page ==> #[trigger] self@.current(p),
            decreases end - page,
        {
            if !self.is_current(page) {
                return false;
            }
            assert forall|p: u64| p % 4096 == 0 && start <= p < page + 4096 implies #[trigger] self@.current(p) by {
                if p >= page {
                    assert(p == page);
                }
            }
            page = page + 4096;
        }
        true
    }
}

} // verus!
