//! The DAX window of a virtio-fs device: which pages of which files it shows.
//!
//! Pages are put into the window and taken out of it outside. Here stands what the window is to
//! show, and how a request goes on once such an operation has succeeded or failed.

use vstd::prelude::*;

use crate::bytes::zero_bytes;
#[allow(unused_imports)]
use crate::cache::dirty::{dirty_pages, PageKey};
#[allow(unused_imports)]
use crate::cache::files::{file_read_fails, file_write_fails, page_floor, page_is_busy, pages_reached};
use crate::cache::shared::{CacheBranchId, DaxPageMapping, SharedPageCache};
#[allow(unused_imports)]
use crate::cache::shared::{
    countable, differs_in_node, map_fails, map_succeeds, open_count, pages_synced, sync_ends, unmap_refusal, unmapped, with_branch, BranchView,
    CacheView, Identity, MappingView,
};
use crate::cache::store::{CacheError, ForkableNodeStore, MapFlags, NodeId};
#[allow(unused_imports)]
use crate::cache::store::{closing_fails, len_fails, opening_fails, readable};
#[allow(unused_imports)]
use crate::cache::visible::{pages_in, seen_bytes, written_through};
#[allow(unused_imports)]
use crate::fork::supervisor::{lemma_pages_in_branches, node_closed, node_opened};
use crate::io::{IoError, EBUSY, EINVAL, ENODEV, ENOENT, EOVERFLOW};
use crate::ordered::{OrdMap, OrdSet};
#[allow(unused_imports)]
use crate::ordered::{among, ascending, lemma_among, Key};
use crate::redox::branch::NodeMetadata;
use crate::vmm::barrier::Barrier;
use crate::vmm::error::Error;

verus! {

pub const FILESYSTEM_SIZE: u64 = 33554432;

pub const DAX_WINDOW_SIZE: u64 = 16777216;

/// What a page of the window shows.
#[derive(Clone, Copy, Debug, Eq, PartialEq, Structural)]
pub struct MappingSpec {
    pub inode: NodeId,
    pub file_offset: u64,
    pub writable: bool,
}

/// Why a request on the window fails.
#[derive(Debug)]
pub enum DaxError {
    Io(IoError),
    Cache(CacheError),
}

/// The node behind an inode number.
pub fn node_id(inode: u64) -> (r: Result<NodeId, IoError>)
    ensures
        r == (if inode <= u32::MAX {
            Ok::<NodeId, IoError>(inode as u32)
        } else {
            Err::<NodeId, IoError>(IoError::Os(EOVERFLOW))
        }),
{
    if inode <= u32::MAX as u64 {
        Ok(inode as u32)
    } else {
        Err(IoError::Os(EOVERFLOW))
    }
}

/// Whether a mode is that of a directory.
pub fn is_directory(mode: u32) -> (b: bool)
    ensures
        b == (mode & 0o170000 == 0o040000),
{
    mode & 0o170000 == 0o040000
}

/// The DAX mappings of one filesystem branch.
#[derive(Debug)]
pub struct VirtioFsBranch {
    branch: CacheBranchId,
    window: Option<(usize, usize)>,
    specs: OrdMap<u64, MappingSpec>,
    active: OrdMap<u64, DaxPageMapping>,
}

/// What is known of a window.
#[verifier::ext_equal]
pub struct WindowView {
    pub branch: u64,
    /// Where the window is, and how long.
    pub window: Option<(usize, usize)>,
    /// What each page of the window is to show, under its offset.
    pub specs: Map<u64, MappingSpec>,
    /// The pages that are in the window, under their offsets.
    pub active: Map<u64, MappingView>,
}

impl View for VirtioFsBranch {
    type V = WindowView;

    closed spec fn view(&self) -> WindowView {
        WindowView {
            branch: self.branch.number(),
            window: self.window,
            specs: self.specs@,
            active: self.active@.map_values(|m: DaxPageMapping| m@),
        }
    }
}

impl WindowView {
    pub open spec fn wf(self) -> bool {
        &&& forall|o: u64| #[trigger] self.specs.contains_key(o) ==> o % 4096 == 0 && o + 4096 <= u64::MAX && self.specs[o].file_offset % 4096 == 0
        &&& forall|o: u64| #[trigger] self.active.contains_key(o) ==> self.active[o].key.1 % 4096 == 0
    }
}

/// What is being done to the pages of a window.
#[derive(Clone, Copy, Debug, Eq, PartialEq, Structural)]
pub enum DaxKind {
    /// Pages are put into the window.
    Activate,
    /// Pages are taken out of the window, to be put in again later.
    Suspend,
    /// Pages are taken out of the window for good.
    Remove,
}

/// A request on a window that is under way.
#[derive(Debug)]
pub struct DaxTask {
    kind: DaxKind,
    offsets: Vec<u64>,
    next: usize,
    activated: Vec<u64>,
    pending: Option<(u64, DaxPageMapping)>,
    failure: Option<DaxError>,
    planned: bool,
    window_ends: bool,
}

/// A request on a window that is under way.
#[verifier::ext_equal]
pub struct TaskView {
    pub kind: DaxKind,
    /// The pages of the window that the request is for.
    pub offsets: Seq<u64>,
    /// How many of them are done.
    pub next: int,
    /// The pages that the request has put into the window.
    pub activated: Seq<u64>,
    /// The page that is being put in or taken out.
    pub pending: Option<(u64, MappingView)>,
    /// Why the request fails.
    pub failure: Option<DaxError>,
    /// Whether a failure takes back what the pages are to show.
    pub planned: bool,
    /// Whether the window goes when an attempt to fill it fails, or once it is emptied.
    pub window_ends: bool,
}

impl View for DaxTask {
    type V = TaskView;

    closed spec fn view(&self) -> TaskView {
        TaskView {
            kind: self.kind,
            offsets: self.offsets@,
            next: self.next as int,
            activated: self.activated@,
            pending: match self.pending {
                Some(pending) => Some((pending.0, pending.1@)),
                None => None,
            },
            failure: self.failure,
            planned: self.planned,
            window_ends: self.window_ends,
        }
    }
}

impl TaskView {
    /// A request of which nothing is done yet.
    pub open spec fn fresh(kind: DaxKind, offsets: Seq<u64>, planned: bool, window_ends: bool) -> TaskView {
        TaskView { kind, offsets, next: 0, activated: Seq::empty(), pending: None, failure: None, planned, window_ends }
    }

    pub open spec fn wf(self, window: WindowView) -> bool {
        &&& 0 <= self.next <= self.offsets.len()
        &&& self.kind is Activate ==> {
            &&& forall|i: int| 0 <= i < self.offsets.len() ==> window.specs.contains_key(#[trigger] self.offsets[i])
            &&& self.offsets.len() > 0 ==> window.window is Some
        }
        &&& self.pending matches Some(pending) ==> pending.1.key.1 % 4096 == 0
        &&& self.pending is Some && !(self.kind is Activate && self.failure is Some) ==> self.next < self.offsets.len() && self.pending->Some_0.0
            == self.offsets[self.next]
        &&& self.failure is Some ==> self.kind is Activate
    }
}

/// What has to be done next for a request.
#[derive(Debug)]
pub enum DaxStep {
    /// Put the cache's page into the window at the offset.
    MapPage { offset: u64, page: u64 },
    /// Take the page at the offset out of the window.
    UnmapPage { offset: u64 },
    /// Ask again.
    Continue,
    /// The request is over.
    Finished(Result<(), DaxError>),
}

/// The error number with which a request for new pages is refused.
pub open spec fn setup_refusal(v: WindowView, inode: u64, file_offset: u64, len: u64, window_offset: u64) -> Option<i32> {
    if len == 0 || file_offset % 4096 != 0 || window_offset % 4096 != 0 || len % 4096 != 0 {
        Some(EINVAL)
    } else if v.window is None {
        Some(ENODEV)
    } else if window_offset + len > v.window->Some_0.1 || window_offset + len > u64::MAX {
        Some(EINVAL)
    } else if file_offset + len > u64::MAX {
        Some(EINVAL)
    } else if exists|o: u64| #[trigger] v.specs.contains_key(o) && window_offset <= o < window_offset + len {
        Some(EBUSY)
    } else if inode > u32::MAX {
        Some(EOVERFLOW)
    } else {
        None
    }
}

/// The offsets of `count` pages from `start` on.
pub open spec fn page_offsets(start: u64, count: int) -> Seq<u64> {
    Seq::new(count as nat, |i: int| (start + 4096 * i) as u64)
}

impl WindowView {
    /// The window once `count` pages from an offset on are to show a file.
    pub open spec fn planned(self, inode: u32, file_offset: u64, writable: bool, window_offset: u64, count: int) -> WindowView {
        WindowView {
            specs: Map::new(
                |o: u64| self.specs.contains_key(o) || o % 4096 == 0 && window_offset <= o < window_offset + 4096 * count,
                |o: u64|
                    if o % 4096 == 0 && window_offset <= o < window_offset + 4096 * count {
                        MappingSpec { inode, file_offset: (file_offset + (o - window_offset)) as u64, writable }
                    } else {
                        self.specs[o]
                    },
            ),
            ..self
        }
    }

    /// The window without plans for the given pages.
    pub open spec fn without(self, offsets: Seq<u64>) -> WindowView {
        WindowView { specs: self.specs.remove_keys(Set::new(|o: u64| offsets.contains(o))), ..self }
    }
}

impl VirtioFsBranch {
    pub open spec fn wf(self) -> bool {
        self@.wf()
    }

    /// A window that shows nothing.
    pub fn new(branch: CacheBranchId) -> (window: Self)
        ensures
            window.wf(),
            window@ == (WindowView { branch: branch.number(), window: None, specs: Map::empty(), active: Map::empty() }),
    {
        let window = VirtioFsBranch { branch, window: None, specs: OrdMap::new(), active: OrdMap::new() };
        assert(window@.active =~= Map::<u64, MappingView>::empty());
        window
    }

    /// The branch whose files the window shows.
    pub fn branch(&self) -> (branch: CacheBranchId)
        ensures
            branch.number() == self@.branch,
    {
        self.branch
    }

    fn take_active(&mut self, offset: u64) -> (r: Option<DaxPageMapping>)
        ensures
            match r {
                Some(mapping) => {
                    &&& old(self)@.active.contains_key(offset)
                    &&& mapping@ == old(self)@.active[offset]
                    &&& final(self)@ == (WindowView { active: old(self)@.active.remove(offset), ..old(self)@ })
                },
                None => !old(self)@.active.contains_key(offset) && final(self)@ == old(self)@,
            },
    {
        let ghost before = self@;
        let r = self.active.remove(&offset);
        assert(self@.active =~= before.active.remove(offset));
        if r.is_none() {
            assert(self@.active =~= before.active);
        }
        r
    }

    fn put_active(&mut self, offset: u64, mapping: DaxPageMapping)
        ensures
            final(self)@ == (WindowView { active: old(self)@.active.insert(offset, mapping@), ..old(self)@ }),
    {
        let ghost before = self@;
        self.active.insert(offset, mapping);
        assert(self@.active =~= before.active.insert(offset, mapping@));
    }

    /// Begins a request to show a range of a file from an offset of the window on.
    pub fn setup_mapping(&mut self, inode: u64, file_offset: u64, len: u64, writable: bool, window_offset: u64) -> (r: Result<DaxTask, IoError>)
        requires
            old(self).wf(),
        ensures
            final(self).wf(),
            ({
                let v = old(self)@;
                match setup_refusal(v, inode, file_offset, len, window_offset) {
                    Some(code) => r == Err::<DaxTask, IoError>(IoError::Os(code)) && final(self)@ == v,
                    None => {
                        &&& r is Ok
                        &&& final(self)@ == v.planned(inode as u32, file_offset, writable, window_offset, len as int / 4096)
                        &&& r->Ok_0@ == TaskView::fresh(DaxKind::Activate, page_offsets(window_offset, len as int / 4096), true, false)
                        &&& r->Ok_0@.wf(final(self)@)
                    },
                }
            }),
    {
        let ghost v = self@;
        if len == 0 || file_offset % 4096 != 0 || window_offset % 4096 != 0 || len % 4096 != 0 {
            return Err(IoError::Os(EINVAL));
        }
        let window_len: usize = match self.window {
            Some(window) => window.1,
            None => {
                return Err(IoError::Os(ENODEV));
            },
        };
        let end: u64 = match window_offset.checked_add(len) {
            Some(end) => end,
            None => {
                return Err(IoError::Os(EINVAL));
            },
        };
        if end > window_len as u64 {
            return Err(IoError::Os(EINVAL));
        }
        if file_offset.checked_add(len).is_none() {
            return Err(IoError::Os(EINVAL));
        }
        if self.any_spec_between(window_offset, end) {
            return Err(IoError::Os(EBUSY));
        }
        let node: NodeId = node_id(inode)?;
        let count: u64 = len / 4096;
        let mut offsets: Vec<u64> = Vec::new();
        let mut i: u64 = 0;
        assert(self@.specs =~= v.planned(node, file_offset, writable, window_offset, 0).specs);
        while i < count
            invariant
                i <= count,
                count == len / 4096,
                len % 4096 == 0,
                window_offset % 4096 == 0,
                file_offset % 4096 == 0,
                window_offset + len <= u64::MAX,
                file_offset + len <= u64::MAX,
                v.wf(),
                offsets@ == page_offsets(window_offset, i as int),
                self@ == v.planned(node, file_offset, writable, window_offset, i as int),
            decreases count - i,
        {
            let ghost earlier = self@;
            let offset: u64 = window_offset + i * 4096;
            self.specs.insert(offset, MappingSpec { inode: node, file_offset: file_offset + i * 4096, writable });
            offsets.push(offset);
            assert(offsets@ =~= page_offsets(window_offset, i + 1));
            assert(self@.specs =~= v.planned(node, file_offset, writable, window_offset, i + 1).specs) by {
                let next = v.planned(node, file_offset, writable, window_offset, i + 1);
                assert forall|o: u64| #[trigger] self@.specs.contains_key(o) <==> next.specs.contains_key(o) by {
                    if o >= offset && o % 4096 == 0 {
                        assert((o - offset) % 4096 == 0);
                    }
                }
                assert forall|o: u64| #[trigger] self@.specs.contains_key(o) implies self@.specs[o] == next.specs[o] by {
                    if o > offset && o % 4096 == 0 {
                        assert((o - offset) % 4096 == 0);
                    }
                }
            }
            assert(self@.active == v.active);
            i += 1;
        }
        let task = DaxTask {
            kind: DaxKind::Activate,
            offsets,
            next: 0,
            activated: Vec::new(),
            pending: None,
            failure: None,
            planned: true,
            window_ends: false,
        };
        assert(task@.activated =~= Seq::<u64>::empty());
        assert(self@.wf()) by {
            assert forall|o: u64| #[trigger] self@.specs.contains_key(o) implies o % 4096 == 0 && o + 4096 <= u64::MAX && self@.specs[o].file_offset % 4096 == 0 by {
                if v.specs.contains_key(o) {
                    assert(v.specs[o].file_offset % 4096 == 0);
                }
            }
        }
        Ok(task)
    }

    fn any_spec_between(&self, start: u64, end: u64) -> (b: bool)
        ensures
            b == (exists|o: u64| #[trigger] self@.specs.contains_key(o) && start <= o < end),
    {
        let n: usize = self.specs.len();
        let mut i: usize = 0;
        while i < n
            invariant
                i <= n,
                n == self.specs.keys().len(),
                self.specs.listed(),
                forall|j: int| 0 <= j < i ==> !(start <= #[trigger] self.specs.keys()[j] < end),
            decreases n - i,
        {
            let offset: u64 = *self.specs.key_at(i);
            if start <= offset && offset < end {
                assert(self@.specs.contains_key(offset));
                return true;
            }
            i += 1;
        }
        assert forall|o: u64| #[trigger] self@.specs.contains_key(o) implies !(start <= o < end) by {
            assert(self.specs.keys().contains(o));
        }
        false
    }

    /// Begins a request to show nothing any more in a range of the window. It goes no further than
    /// the first page that the window is not to show.
    pub fn remove_mapping(&self, window_offset: u64, len: u64) -> (r: Result<DaxTask, IoError>)
        requires
            self.wf(),
        ensures
            if len == 0 || window_offset % 4096 != 0 || len % 4096 != 0 {
                r == Err::<DaxTask, IoError>(IoError::Os(EINVAL))
            } else {
                &&& r is Ok
                &&& r->Ok_0@.wf(self@)
                &&& removes(self@, window_offset, len, r->Ok_0@)
            },
    {
        if len == 0 || window_offset % 4096 != 0 || len % 4096 != 0 {
            return Err(IoError::Os(EINVAL));
        }
        let total: u64 = len / 4096;
        let mut offsets: Vec<u64> = Vec::new();
        let mut offset: u64 = window_offset;
        offsets.push(offset);
        let mut count: u64 = 1;
        assert(offsets@ =~= page_offsets(window_offset, 1));
        while count < total && self.specs.contains_key(&offset)
            invariant
                self.wf(),
                1 <= count <= total,
                offset == window_offset + 4096 * (count - 1),
                offsets@ == page_offsets(window_offset, count as int),
                forall|i: int| 0 <= i < count - 1 ==> self@.specs.contains_key(#[trigger] page_offsets(window_offset, count as int)[i]),
            decreases total - count,
        {
            assert(self@.specs.contains_key(offset));
            let ghost earlier = page_offsets(window_offset, count as int);
            offset = offset + 4096;
            offsets.push(offset);
            count += 1;
            assert(offsets@ =~= page_offsets(window_offset, count as int));
            assert forall|i: int| 0 <= i < count - 1 implies self@.specs.contains_key(#[trigger] page_offsets(window_offset, count as int)[i]) by {
                assert(page_offsets(window_offset, count as int)[i] == earlier[i]);
            }
        }
        assert(page_offsets(window_offset, count as int).last() == offset);
        let task = DaxTask {
            kind: DaxKind::Remove,
            offsets,
            next: 0,
            activated: Vec::new(),
            pending: None,
            failure: None,
            planned: false,
            window_ends: false,
        };
        assert(task@.activated =~= Seq::<u64>::empty());
        assert(task@ == TaskView::fresh(DaxKind::Remove, page_offsets(window_offset, count as int), false, false));
        Ok(task)
    }

    /// Begins to take all pages out of the window, to be put in again later.
    pub fn suspend_mappings(&self, window_ends: bool) -> (task: DaxTask)
        requires
            self.wf(),
        ensures
            task@.wf(self@),
            empties(self@, task@, window_ends),
    {
        let offsets = self.active_offsets();
        let task = DaxTask {
            kind: DaxKind::Suspend,
            offsets,
            next: 0,
            activated: Vec::new(),
            pending: None,
            failure: None,
            planned: false,
            window_ends,
        };
        assert(task@.activated =~= Seq::<u64>::empty());
        task
    }

    /// Begins to put all pages into the window that it is to show.
    pub fn resume_mappings(&self, window_ends: bool) -> (r: Result<DaxTask, IoError>)
        requires
            self.wf(),
        ensures
            match r {
                Ok(task) => {
                    &&& self@.specs == Map::<u64, MappingSpec>::empty() || self@.window is Some
                    &&& task@.wf(self@)
                    &&& refills(self@, task@, window_ends)
                },
                Err(e) => e == IoError::Os(ENODEV) && self@.window is None && self@.specs != Map::<u64, MappingSpec>::empty(),
            },
    {
        let n: usize = self.specs.len();
        if n > 0 && self.window.is_none() {
            assert(self@.specs.contains_key(self.specs.keys()[0]));
            return Err(IoError::Os(ENODEV));
        }
        let mut offsets: Vec<u64> = Vec::new();
        let mut i: usize = 0;
        while i < n
            invariant
                i <= n,
                n == self.specs.keys().len(),
                self.specs.listed(),
                offsets@ == self.specs.keys().take(i as int),
            decreases n - i,
        {
            offsets.push(*self.specs.key_at(i));
            assert(self.specs.keys().take(i + 1) =~= self.specs.keys().take(i as int).push(self.specs.keys()[i as int]));
            i += 1;
        }
        assert(offsets@ =~= self.specs.keys());
        let task = DaxTask {
            kind: DaxKind::Activate,
            offsets,
            next: 0,
            activated: Vec::new(),
            pending: None,
            failure: None,
            planned: false,
            window_ends,
        };
        assert(task@.activated =~= Seq::<u64>::empty());
        assert forall|o: u64| #[trigger] task@.offsets.contains(o) <==> self@.specs.contains_key(o) by {
            assert(self.specs@.contains_key(o) <==> self.specs.keys().contains(o));
        }
        proof {
            if n == 0 {
                assert(self@.specs =~= Map::<u64, MappingSpec>::empty()) by {
                    assert forall|o: u64| !self@.specs.contains_key(o) by {
                        if self@.specs.contains_key(o) {
                            assert(self.specs.keys().contains(o));
                        }
                    }
                }
            }
            assert forall|k: int| 0 <= k < task@.offsets.len() implies self@.specs.contains_key(#[trigger] task@.offsets[k]) by {
                assert(task@.offsets.contains(task@.offsets[k]));
            }
        }
        Ok(task)
    }

    /// Takes note of the window's place, and begins to fill it.
    pub fn attach_dax_window(&mut self, host_address: usize, len: usize) -> (r: Result<DaxTask, IoError>)
        requires
            old(self).wf(),
        ensures
            final(self).wf(),
            match r {
                Ok(task) => {
                    &&& old(self)@.window is None
                    &&& final(self)@ == (WindowView { window: Some((host_address, len)), ..old(self)@ })
                    &&& task@.wf(final(self)@)
                    &&& refills(final(self)@, task@, true)
                },
                Err(e) => {
                    &&& e == IoError::AlreadyExists("DAX window is already attached")
                    &&& old(self)@.window is Some
                    &&& final(self)@ == old(self)@
                },
            },
    {
        if self.window.is_some() {
            return Err(IoError::AlreadyExists("DAX window is already attached"));
        }
        let ghost before = self@;
        self.window = Some((host_address, len));
        self.resume_mappings(true)
    }

    /// Begins to empty the window, which then goes; nothing where it is another one.
    pub fn detach_dax_window(&self, host_address: usize, len: usize) -> (r: Option<DaxTask>)
        requires
            self.wf(),
        ensures
            match r {
                Some(task) => {
                    &&& self@.window == Some((host_address, len))
                    &&& task@.wf(self@)
                    &&& empties(self@, task@, true)
                },
                None => self@.window != Some((host_address, len)),
            },
    {
        match self.window {
            Some(window) => {
                if window.0 != host_address || window.1 != len {
                    return None;
                }
            },
            None => {
                return None;
            },
        }
        Some(self.suspend_mappings(true))
    }
}

/// Whether a request takes out the pages of a range, up to the first that is not planned.
pub open spec fn removes(v: WindowView, window_offset: u64, len: u64, task: TaskView) -> bool {
    exists|count: int|
        {
            &&& 0 < count <= len as int / 4096
            &&& task == TaskView::fresh(DaxKind::Remove, #[trigger] page_offsets(window_offset, count), false, false)
            &&& forall|i: int| 0 <= i < count - 1 ==> v.specs.contains_key(#[trigger] page_offsets(window_offset, count)[i])
            &&& count == len as int / 4096 || !v.specs.contains_key(page_offsets(window_offset, count).last())
        }
}

/// Whether a request takes in every page that is planned, in order.
pub open spec fn refills(v: WindowView, task: TaskView, window_ends: bool) -> bool {
    &&& task == TaskView::fresh(DaxKind::Activate, task.offsets, false, window_ends)
    &&& ascending::<u64>(task.offsets)
    &&& forall|o: u64| #[trigger] task.offsets.contains(o) <==> v.specs.contains_key(o)
}

/// Whether a request takes out every page that is held, in order.
pub open spec fn empties(v: WindowView, task: TaskView, window_ends: bool) -> bool {
    &&& task == TaskView::fresh(DaxKind::Suspend, task.offsets, false, window_ends)
    &&& ascending::<u64>(task.offsets)
    &&& forall|o: u64| #[trigger] task.offsets.contains(o) <==> v.active.contains_key(o)
}

/// How the mapping of a page into the window is asked of the cache.
pub open spec fn map_flags(spec: MappingSpec) -> MapFlags {
    MapFlags { readable: true, writable: spec.writable }
}

/// Whether a step of a failed request takes back one page that it had put into the window, the
/// last one first, and in the end what the pages were to show.
pub open spec fn stepped_back(v: WindowView, t: TaskView, w: WindowView, u: TaskView, step: DaxStep) -> bool {
    if t.activated.len() > 0 {
        let offset = t.activated.last();
        let rest = TaskView { activated: t.activated.drop_last(), ..t };
        if v.active.contains_key(offset) && v.window is Some {
            &&& step == (DaxStep::UnmapPage { offset })
            &&& w == (WindowView { active: v.active.remove(offset), ..v })
            &&& u == (TaskView { pending: Some((offset, v.active[offset])), ..rest })
        } else {
            step == DaxStep::Continue && w == (WindowView { active: v.active.remove(offset), ..v }) && u == rest
        }
    } else {
        let kept = if t.planned {
            v.without(t.offsets)
        } else {
            v
        };
        &&& step == DaxStep::Finished(Err(t.failure->Some_0))
        &&& w == (WindowView {
            window: if t.window_ends {
                None
            } else {
                v.window
            },
            ..kept
        })
    }
}

/// Whether a step of a request that takes pages out of the window deals with the next page.
pub open spec fn stepped_out(v: WindowView, t: TaskView, w: WindowView, u: TaskView, step: DaxStep) -> bool {
    if t.next >= t.offsets.len() {
        &&& step == DaxStep::Finished(Ok(()))
        &&& w == (WindowView {
            window: if t.window_ends {
                None
            } else {
                v.window
            },
            ..v
        })
    } else {
        let offset = t.offsets[t.next];
        if v.active.contains_key(offset) {
            &&& w == (WindowView { active: v.active.remove(offset), ..v })
            &&& if v.window is Some {
                step == (DaxStep::UnmapPage { offset }) && u == (TaskView { pending: Some((offset, v.active[offset])), ..t })
            } else {
                step == DaxStep::Finished(Err(DaxError::Io(IoError::Os(ENODEV))))
            }
        } else if !v.specs.contains_key(offset) {
            step == DaxStep::Finished(Err(DaxError::Io(IoError::Os(ENOENT)))) && w == v
        } else {
            &&& step == DaxStep::Continue
            &&& u == (TaskView { next: t.next + 1, ..t })
            &&& w == (if t.kind is Remove {
                WindowView { specs: v.specs.remove(offset), ..v }
            } else {
                v
            })
        }
    }
}

/// Whether a step of a request that puts pages into the window deals with the next page: it is
/// skipped where it is in the window already or shows nothing of the file, and mapped otherwise.
pub open spec fn stepped_in<S: ForkableNodeStore>(
    v: WindowView,
    t: TaskView,
    c: CacheView<Identity<S>>,
    w: WindowView,
    u: TaskView,
    d: CacheView<Identity<S>>,
    step: DaxStep,
) -> bool {
    let offset = t.offsets[t.next];
    let spec = v.specs[offset];
    let skipped = TaskView { next: t.next + 1, ..t };
    &&& w == v
    &&& if t.next >= t.offsets.len() {
        step == DaxStep::Finished(Ok(())) && d == c
    } else if v.active.contains_key(offset) {
        step == DaxStep::Continue && u == skipped && d == c
    } else if offset + 4096 > v.window->Some_0.1 {
        step == DaxStep::Continue && u == (TaskView { failure: Some(DaxError::Io(IoError::Os(EINVAL))), ..t }) && d == c
    } else if !c.branches.contains_key(v.branch) {
        step == DaxStep::Continue && u == (TaskView { failure: Some(DaxError::Cache(CacheError::BranchNotFound(v.branch))), ..t }) && d == c
    } else {
        match step {
            DaxStep::Continue => {
                ||| u == skipped && spec.file_offset >= c.branches[v.branch].nodes[spec.inode].len() && d == c
                ||| {
                    let branch = c.branches[v.branch];
                    &&& u == (TaskView { failure: u.failure, ..t })
                    &&& u.failure matches Some(DaxError::Cache(e)) && {
                        ||| e matches CacheError::Io(error) && d == c && len_fails::<S>(branch.nodes, branch.identities, spec.inode, error)
                        ||| {
                            &&& spec.file_offset < branch.nodes[spec.inode].len()
                            &&& map_fails::<S>(c, d, v.branch, spec.inode, spec.file_offset, map_flags(spec), e)
                        }
                    }
                }
            },
            DaxStep::MapPage { offset: o, page } => {
                &&& o == offset
                &&& spec.file_offset < c.branches[v.branch].nodes[spec.inode].len()
                &&& u.pending is Some
                &&& u == (TaskView { pending: Some((offset, u.pending->Some_0.1)), ..t })
                &&& page == u.pending->Some_0.1.page
                &&& map_succeeds::<S>(c, d, v.branch, spec.inode, spec.file_offset, map_flags(spec), u.pending->Some_0.1)
            },
            _ => false,
        }
    }
}

/// Whether a step was the one to take.
pub open spec fn step_taken<S: ForkableNodeStore>(
    v: WindowView,
    t: TaskView,
    c: CacheView<Identity<S>>,
    w: WindowView,
    u: TaskView,
    d: CacheView<Identity<S>>,
    step: DaxStep,
) -> bool {
    if t.failure is Some {
        stepped_back(v, t, w, u, step) && d == c
    } else if t.kind is Activate {
        stepped_in::<S>(v, t, c, w, u, d, step)
    } else {
        stepped_out(v, t, w, u, step) && d == c
    }
}

impl VirtioFsBranch {
    /// Says what has to be done next for a request.
    pub fn step<S: ForkableNodeStore>(&mut self, task: &mut DaxTask, cache: &mut SharedPageCache<S>) -> (step: DaxStep)
        requires
            old(self).wf(),
            old(task)@.wf(old(self)@),
            old(task)@.pending is None,
            old(cache).wf(),
            old(cache)@.next_page < u64::MAX - 1,
            countable(old(cache)@, old(self)@.branch),
        ensures
            final(self).wf(),
            final(cache).wf(),
            !(step is Finished) ==> final(task)@.wf(final(self)@),
            step_taken::<S>(old(self)@, old(task)@, old(cache)@, final(self)@, final(task)@, final(cache)@, step),
    {
        let ghost v = self@;
        let ghost t = task@;
        let ghost c = cache@;
        match task.kind {
            DaxKind::Activate => {
                if task.failure.is_some() {
                    return self.step_back(task);
                }
                if task.next >= task.offsets.len() {
                    return DaxStep::Finished(Ok(()));
                }
                let offset: u64 = task.offsets[task.next];
                assert(v.specs.contains_key(t.offsets[t.next]));
                if self.active.contains_key(&offset) {
                    assert(v.active.contains_key(offset));
                    task.next = task.next + 1;
                    return DaxStep::Continue;
                }
                assert(!v.active.contains_key(offset));
                let window_len: usize = match self.window {
                    Some(window) => window.1,
                    None => 0,
                };
                let spec: MappingSpec = match self.specs.get(&offset) {
                    Some(spec) => *spec,
                    None => MappingSpec { inode: 0, file_offset: 0, writable: false },
                };
                assert(spec == v.specs[offset]);
                if offset + 4096 > window_len as u64 {
                    task.failure = Some(DaxError::Io(IoError::Os(EINVAL)));
                    return DaxStep::Continue;
                }
                let file_len: u64 = match cache.node_len(self.branch, spec.inode) {
                    Ok(file_len) => file_len,
                    Err(error) => {
                        task.failure = Some(DaxError::Cache(error));
                        return DaxStep::Continue;
                    },
                };
                if spec.file_offset >= file_len {
                    task.next = task.next + 1;
                    return DaxStep::Continue;
                }
                let flags = if spec.writable {
                    MapFlags::read_write()
                } else {
                    MapFlags::read()
                };
                assert(flags == map_flags(spec));
                match cache.map_page(self.branch, spec.inode, spec.file_offset, flags) {
                    Ok(mapping) => {
                        let page: u64 = mapping.page_id();
                        task.pending = Some((offset, mapping));
                        DaxStep::MapPage { offset, page }
                    },
                    Err(error) => {
                        task.failure = Some(DaxError::Cache(error));
                        DaxStep::Continue
                    },
                }
            },
            kind => {
                if task.next >= task.offsets.len() {
                    if task.window_ends {
                        self.window = None;
                    }
                    assert(self@.specs == v.specs && self@.active == v.active);
                    assert(self.wf());
                    return DaxStep::Finished(Ok(()));
                }
                let offset: u64 = task.offsets[task.next];
                if let Some(mapping) = self.take_active(offset) {
                    assert(v.active.contains_key(offset));
                    if self.window.is_none() {
                        return DaxStep::Finished(Err(DaxError::Io(IoError::Os(ENODEV))));
                    }
                    task.pending = Some((offset, mapping));
                    return DaxStep::UnmapPage { offset };
                }
                if !self.specs.contains_key(&offset) {
                    return DaxStep::Finished(Err(DaxError::Io(IoError::Os(ENOENT))));
                }
                if let DaxKind::Remove = kind {
                    self.specs.remove(&offset);
                }
                task.next = task.next + 1;
                DaxStep::Continue
            },
        }
    }

    /// Goes on to take back what a failed request has done.
    fn step_back(&mut self, task: &mut DaxTask) -> (step: DaxStep)
        requires
            old(self).wf(),
            old(task)@.wf(old(self)@),
            old(task)@.pending is None,
            old(task)@.failure is Some,
        ensures
            final(self).wf(),
            !(step is Finished) ==> final(task)@.wf(final(self)@),
            stepped_back(old(self)@, old(task)@, final(self)@, final(task)@, step),
    {
        let ghost v = self@;
        let ghost t = task@;
        match task.activated.pop() {
            Some(offset) => {
                assert(t.activated.last() == offset);
                assert(task@.activated =~= t.activated.drop_last());
                match self.take_active(offset) {
                    Some(mapping) => {
                        assert(v.active.contains_key(offset));
                        if self.window.is_none() {
                            return DaxStep::Continue;
                        }
                        task.pending = Some((offset, mapping));
                        DaxStep::UnmapPage { offset }
                    },
                    None => {
                        assert(v.active.remove(offset) =~= v.active);
                        DaxStep::Continue
                    },
                }
            },
            None => {
                if task.planned {
                    self.forget(&task.offsets);
                }
                if task.window_ends {
                    self.window = None;
                }
                assert(self@.active == v.active);
                assert forall|o: u64| #[trigger] self@.specs.contains_key(o) implies o % 4096 == 0 && o + 4096 <= u64::MAX && self@.specs[o].file_offset % 4096
                    == 0 by {
                    assert(v.specs.contains_key(o));
                }
                assert(self.wf());
                match task.failure.take() {
                    Some(error) => DaxStep::Finished(Err(error)),
                    None => DaxStep::Continue,
                }
            },
        }
    }

    /// Forgets what the given pages are to show.
    fn forget(&mut self, offsets: &Vec<u64>)
        ensures
            final(self)@ == old(self)@.without(offsets@),
    {
        let ghost v = self@;
        let n: usize = offsets.len();
        let mut i: usize = 0;
        while i < n
            invariant
                i <= n,
                n == offsets@.len(),
                self@ == (WindowView { specs: self@.specs, ..v }),
                forall|o: u64| #[trigger] self@.specs.contains_key(o) <==> v.specs.contains_key(o) && !among(offsets@, i as int, o),
                forall|o: u64| #[trigger] self@.specs.contains_key(o) ==> self@.specs[o] == v.specs[o],
            decreases n - i,
        {
            proof {
                lemma_among(offsets@, i as int);
            }
            let ghost active = self@.active;
            self.specs.remove(&offsets[i]);
            assert(self@.active == active);
            i += 1;
        }
        assert(self@.specs =~= v.without(offsets@).specs);
    }

    /// Goes on once the operation that a step asked for is done; on failure with its error number.
    pub fn done<S: ForkableNodeStore>(&mut self, task: &mut DaxTask, cache: &mut SharedPageCache<S>, outcome: Result<(), i32>) -> (r: Result<(), DaxError>)
        requires
            old(self).wf(),
            old(task)@.wf(old(self)@),
            old(task)@.pending is Some,
            old(cache).wf(),
        ensures
            final(self).wf(),
            final(cache).wf(),
            r is Ok ==> final(task)@.wf(final(self)@) && final(task)@.pending is None,
            went_on(old(self)@, old(task)@, old(cache)@, final(self)@, final(task)@, final(cache)@, outcome, r),
    {
        let ghost v = self@;
        let ghost t = task@;
        let total: usize = task.offsets.len();
        let (offset, mapping) = match task.pending.take() {
            Some(pending) => pending,
            None => {
                return Ok(());
            },
        };
        match task.kind {
            DaxKind::Activate => {
                if task.failure.is_some() {
                    match outcome {
                        Ok(()) => {
                            let released = cache.unmap(self.branch, mapping);
                        },
                        Err(_) => {
                            self.put_active(offset, mapping);
                        },
                    }
                    return Ok(());
                }
                match outcome {
                    Ok(()) => {
                        self.put_active(offset, mapping);
                        task.activated.push(offset);
                        assert(task@.activated =~= t.activated.push(offset));
                        assert(task.next < total);
                        task.next = task.next + 1;
                    },
                    Err(code) => {
                        match cache.unmap(self.branch, mapping) {
                            Ok(()) => {
                                task.failure = Some(DaxError::Io(IoError::Os(code)));
                            },
                            Err(error) => {
                                task.failure = Some(DaxError::Cache(error));
                            },
                        }
                    },
                }
                Ok(())
            },
            kind => {
                match outcome {
                    Ok(()) => {
                        match cache.unmap(self.branch, mapping) {
                            Ok(()) => {},
                            Err(error) => {
                                return Err(DaxError::Cache(error));
                            },
                        }
                        if let DaxKind::Remove = kind {
                            self.specs.remove(&offset);
                        }
                        assert(task.next < total);
                        task.next = task.next + 1;
                        Ok(())
                    },
                    Err(code) => {
                        self.put_active(offset, mapping);
                        Err(DaxError::Io(IoError::Os(code)))
                    },
                }
            },
        }
    }
}

/// How a request goes on once the operation on its pending page has succeeded or failed. A request
/// that takes pages out of the window is over with the first failure.
pub open spec fn went_on<I>(
    v: WindowView,
    t: TaskView,
    c: CacheView<I>,
    w: WindowView,
    u: TaskView,
    d: CacheView<I>,
    outcome: Result<(), i32>,
    r: Result<(), DaxError>,
) -> bool {
    let (offset, mapping) = t.pending->Some_0;
    let refusal = unmap_refusal(c, v.branch, mapping);
    let released = if refusal is None {
        unmapped(c, v.branch, mapping)
    } else {
        c
    };
    let put_back = WindowView { active: v.active.insert(offset, mapping), ..v };
    if t.kind is Activate {
        &&& r == Ok::<(), DaxError>(())
        &&& match (t.failure is Some, outcome) {
            (true, Ok(())) => w == v && u == (TaskView { pending: None, ..t }) && d == released,
            (true, Err(_)) => w == put_back && u == (TaskView { pending: None, ..t }) && d == c,
            (false, Ok(())) => {
                &&& w == put_back
                &&& u == (TaskView { pending: None, activated: t.activated.push(offset), next: t.next + 1, ..t })
                &&& d == c
            },
            (false, Err(code)) => {
                &&& w == v
                &&& u == (TaskView {
                    pending: None,
                    failure: match refusal {
                        None => Some(DaxError::Io(IoError::Os(code))),
                        Some(e) => Some(DaxError::Cache(e)),
                    },
                    ..t
                })
                &&& d == released
            },
        }
    } else {
        match outcome {
            Ok(()) => {
                &&& d == released
                &&& match refusal {
                    Some(e) => r == Err::<(), DaxError>(DaxError::Cache(e)) && w == v,
                    None => {
                        &&& r == Ok::<(), DaxError>(())
                        &&& u == (TaskView { pending: None, next: t.next + 1, ..t })
                        &&& w == (if t.kind is Remove {
                            WindowView { specs: v.specs.remove(offset), ..v }
                        } else {
                            v
                        })
                    },
                }
            },
            Err(code) => r == Err::<(), DaxError>(DaxError::Io(IoError::Os(code))) && w == put_back && d == c,
        }
    }
}

/// The nodes that the pages of a window are to show.
pub open spec fn shown_nodes(specs: Map<u64, MappingSpec>) -> Set<NodeId> {
    Set::new(|n: NodeId| exists|o: u64| #[trigger] specs.contains_key(o) && specs[o].inode == n)
}

/// Branch `b` of the cache once each of the first `count` nodes is opened once more.
pub open spec fn nodes_opened<I>(v: CacheView<I>, b: u64, nodes: Seq<NodeId>, count: int) -> CacheView<I>
    decreases count,
{
    if count <= 0 {
        v
    } else {
        node_opened(nodes_opened(v, b, nodes, count - 1), b, nodes[count - 1])
    }
}

impl VirtioFsBranch {
    /// A window for another branch that is to show the same pages.
    pub fn child(&self, branch: CacheBranchId) -> (child: Self)
        requires
            self.wf(),
        ensures
            child.wf(),
            child@ == (WindowView { branch: branch.number(), window: None, specs: self@.specs, active: Map::empty() }),
    {
        let n: usize = self.specs.len();
        let mut specs: OrdMap<u64, MappingSpec> = OrdMap::new();
        let ghost keys = self.specs.keys();
        let mut i: usize = 0;
        while i < n
            invariant
                i <= n,
                n == keys.len(),
                keys == self.specs.keys(),
                self.specs.listed(),
                forall|o: u64| #[trigger] specs@.contains_key(o) <==> among(keys, i as int, o),
                forall|o: u64| #[trigger] specs@.contains_key(o) ==> specs@[o] == self@.specs[o],
            decreases n - i,
        {
            proof {
                lemma_among(keys, i as int);
            }
            specs.insert(*self.specs.key_at(i), *self.specs.value_at(i));
            i += 1;
        }
        assert(specs@ =~= self@.specs) by {
            assert forall|o: u64| #[trigger] specs@.contains_key(o) <==> self@.specs.contains_key(o) by {
                assert(self.specs@.contains_key(o) <==> self.specs.keys().contains(o));
            }
        }
        let child = VirtioFsBranch { branch, window: None, specs, active: OrdMap::new() };
        assert(child@.active =~= Map::<u64, MappingView>::empty());
        child
    }

    /// The nodes that the window is to show, in order.
    pub fn nodes(&self) -> (nodes: Vec<NodeId>)
        ensures
            ascending::<NodeId>(nodes@),
            forall|n: NodeId| #[trigger] nodes@.contains(n) <==> shown_nodes(self@.specs).contains(n),
    {
        let total: usize = self.specs.len();
        let mut set: OrdSet<NodeId> = OrdSet::new();
        let ghost keys = self.specs.keys();
        let mut i: usize = 0;
        while i < total
            invariant
                i <= total,
                total == keys.len(),
                keys == self.specs.keys(),
                self.specs.listed(),
                forall|n: NodeId| #[trigger] set@.contains(n) <==> exists|j: int| 0 <= j < i && self@.specs[#[trigger] keys[j]].inode == n,
            decreases total - i,
        {
            let ghost earlier = set@;
            let node: NodeId = self.specs.value_at(i).inode;
            set.insert(node);
            assert forall|n: NodeId| #[trigger] set@.contains(n) <==> exists|j: int| 0 <= j < i + 1 && self@.specs[#[trigger] keys[j]].inode == n by {
                if earlier.contains(n) {
                    let j = choose|j: int| 0 <= j < i && self@.specs[#[trigger] keys[j]].inode == n;
                    assert(self@.specs[keys[j]].inode == n);
                }
                if n == node {
                    assert(self@.specs[keys[i as int]].inode == n);
                }
            }
            i += 1;
        }
        let count: usize = set.len();
        let mut nodes: Vec<NodeId> = Vec::new();
        i = 0;
        while i < count
            invariant
                i <= count,
                count == set.members().len(),
                set.listed(),
                nodes@ == set.members().take(i as int),
            decreases count - i,
        {
            nodes.push(*set.at(i));
            assert(set.members().take(i + 1) =~= set.members().take(i as int).push(set.members()[i as int]));
            i += 1;
        }
        assert(nodes@ =~= set.members());
        assert forall|n: NodeId| #[trigger] nodes@.contains(n) <==> shown_nodes(self@.specs).contains(n) by {
            assert(set@.contains(n) <==> nodes@.contains(n));
            if set@.contains(n) {
                let j = choose|j: int| 0 <= j < total && self@.specs[#[trigger] keys[j]].inode == n;
                assert(self@.specs.contains_key(keys[j]));
            }
            if shown_nodes(self@.specs).contains(n) {
                let o = choose|o: u64| #[trigger] self@.specs.contains_key(o) && self@.specs[o].inode == n;
                assert(self.specs.keys().contains(o));
                let j = choose|j: int| 0 <= j < keys.len() && keys[j] == o;
                assert(self@.specs[keys[j]].inode == n);
            }
        }
        nodes
    }

    /// Opens the files that the window is to show.
    pub fn open_files<S: ForkableNodeStore>(&self, cache: &mut SharedPageCache<S>) -> (r: Result<(), CacheError>)
        requires
            self.wf(),
            old(cache).wf(),
        ensures
            final(cache).wf(),
            exists|nodes: Seq<NodeId>, count: int|
                {
                    let opened = #[trigger] nodes_opened(old(cache)@, self@.branch, nodes, count);
                    &&& ascending::<NodeId>(nodes)
                    &&& forall|n: NodeId| #[trigger] nodes.contains(n) <==> shown_nodes(self@.specs).contains(n)
                    &&& 0 <= count <= nodes.len()
                    &&& match r {
                        Ok(()) => count == nodes.len() && final(cache)@ == opened && (nodes.len() > 0 ==> old(cache)@.branches.contains_key(self@.branch)),
                        Err(CacheError::Io(error)) => {
                            let was = opened.branches[self@.branch];
                            &&& count < nodes.len()
                            &&& open_count(was.open, nodes[count]) == 0
                            &&& opening_fails::<S>(was.nodes, was.identities, nodes[count], error)
                            &&& final(cache)@ == with_branch(opened, self@.branch, BranchView { open: was.open.insert(nodes[count], 0), ..was })
                        },
                        Err(e) => {
                            &&& count < nodes.len()
                            &&& final(cache)@ == opened
                            &&& e == (if opened.branches.contains_key(self@.branch) {
                                CacheError::InvalidMapping("open reference count overflow")
                            } else {
                                CacheError::BranchNotFound(self@.branch)
                            })
                        },
                    }
                },
    {
        let ghost v = cache@;
        let nodes = self.nodes();
        let n: usize = nodes.len();
        let mut i: usize = 0;
        while i < n
            invariant
                i <= n,
                n == nodes@.len(),
                ascending::<NodeId>(nodes@),
                forall|x: NodeId| #[trigger] nodes@.contains(x) <==> shown_nodes(self@.specs).contains(x),
                v == old(cache)@,
                cache.wf(),
                cache@ == nodes_opened(v, self@.branch, nodes@, i as int),
                i > 0 ==> v.branches.contains_key(self@.branch),
            decreases n - i,
        {
            let ghost before = cache@;
            if let Err(error) = cache.open(self.branch, nodes[i]) {
                assert(before == nodes_opened(v, self@.branch, nodes@, i as int));
                return Err(error);
            }
            proof {
                if i == 0 {
                    assert(before == v);
                }
            }
            i += 1;
        }
        assert(cache@ == nodes_opened(v, self@.branch, nodes@, n as int));
        Ok(())
    }
}

/// Whether a branch's state may only have changed in what it sees of its files, not in what it has
/// open or mapped, and no other branch changed at all.
pub open spec fn only_files_changed<I>(v: CacheView<I>, w: CacheView<I>, b: u64) -> bool {
    &&& w.branches.dom() == v.branches.dom()
    &&& forall|x: u64| x != b && #[trigger] v.branches.contains_key(x) ==> w.branches[x] == v.branches[x]
    &&& w.branches[b].active == v.branches[b].active
}

/// Which part of an access to a cached file failed.
#[derive(Debug)]
pub enum FileFailure {
    Open(CacheError),
    Access(CacheError),
    Close(CacheError),
}

impl FileFailure {
    /// What was being done; `access` says what the access was.
    pub fn operation(&self, access: &'static str) -> (operation: &'static str)
        ensures
            operation@ == (match *self {
                FileFailure::Open(_) => "open cached file"@,
                FileFailure::Access(_) => access@,
                FileFailure::Close(_) => "close cached file"@,
            }),
    {
        match self {
            FileFailure::Open(_) => "open cached file",
            FileFailure::Access(_) => access,
            FileFailure::Close(_) => "close cached file",
        }
    }

    /// The failure behind it.
    pub fn error(self) -> (error: CacheError)
        ensures
            error == (match self {
                FileFailure::Open(e) => e,
                FileFailure::Access(e) => e,
                FileFailure::Close(e) => e,
            }),
    {
        match self {
            FileFailure::Open(error) => error,
            FileFailure::Access(error) => error,
            FileFailure::Close(error) => error,
        }
    }
}

/// Why a node cannot be opened, and what then comes of the cache.
pub open spec fn open_fails<S: ForkableNodeStore>(
    v: CacheView<Identity<S>>,
    b: u64,
    node: NodeId,
    e: CacheError,
    w: CacheView<Identity<S>>,
) -> bool {
    let was = v.branches[b];
    let count = open_count(was.open, node);
    match e {
        CacheError::BranchNotFound(number) => number == b && !v.branches.contains_key(b) && w == v,
        CacheError::InvalidMapping(why) => {
            v.branches.contains_key(b) && count == usize::MAX && why == "open reference count overflow" && w == v
        },
        CacheError::Io(error) => {
            &&& v.branches.contains_key(b) && count == 0
            &&& opening_fails::<S>(was.nodes, was.identities, node, error)
            &&& w == with_branch(v, b, BranchView { open: was.open.insert(node, 0), ..was })
        },
        _ => false,
    }
}

/// Whether `w` is the cache once bytes were written to a file of branch `b`, but could not all be
/// written on to the store.
pub open spec fn written_not_synced<S: ForkableNodeStore>(
    v: CacheView<Identity<S>>,
    w: CacheView<Identity<S>>,
    b: u64,
    node: NodeId,
    offset: u64,
    data: Seq<u8>,
    e: CacheError,
) -> bool {
    &&& offset + data.len() <= v.branches[b].nodes[node].len()
    &&& exists|held: CacheView<Identity<S>>, stored: CacheView<Identity<S>>|
        {
            &&& #[trigger] written_through::<S>(node_opened(v, b, node), held, b, node, offset as int, data)
            &&& #[trigger] sync_ends::<S>(held, stored, b, node, Err(e))
            &&& node_closed(stored, w, b, node, open_count(v.branches[b].open, node))
        }
}

impl VirtioFsBranch {
    /// Writes to a file through the cache and on to the store, while no page of the branch is in a
    /// window.
    pub fn write_cached<S: ForkableNodeStore>(&self, cache: &mut SharedPageCache<S>, node: NodeId, offset: u64, bytes: &[u8]) -> (r: Result<(), FileFailure>)
        requires
            old(cache).wf(),
            old(cache)@.next_page + 2 * pages_reached(offset as int, bytes@.len() as int) < u64::MAX - 1,
            countable(old(cache)@, self@.branch),
        ensures
            final(cache).wf(),
            ({
                let v = old(cache)@;
                let b = self@.branch;
                let count = open_count(v.branches[b].open, node);
                let end = offset + bytes@.len();
                let contents = v.branches[b].nodes[node];
                match r {
                    Ok(()) => exists|held: CacheView<Identity<S>>, pages: Seq<PageKey>|
                        {
                            &&& v.branches.contains_key(b)
                            &&& end <= contents.len()
                            &&& #[trigger] written_through::<S>(node_opened(v, b, node), held, b, node, offset as int, bytes@)
                            &&& #[trigger] dirty_pages(held.branches[b].dirty, node, pages)
                            &&& node_closed(
                                pages_synced::<S>(held, b, held.branches[b].nodes[node].len() as int, pages, pages.len() as int),
                                final(cache)@,
                                b,
                                node,
                                count,
                            )
                        },
                    Err(FileFailure::Open(e)) => open_fails::<S>(v, b, node, e, final(cache)@),
                    Err(FileFailure::Access(e)) => {
                        &&& v.branches.contains_key(b)
                        &&& only_files_changed(v, final(cache)@, b)
                        &&& match e {
                            CacheError::InvalidMapping(why) => {
                                &&& why == (if end > u64::MAX { "write range overflow" } else { "write extends beyond file" })
                                &&& end > u64::MAX || end > contents.len()
                                &&& node_closed(node_opened(v, b, node), final(cache)@, b, node, count)
                            },
                            CacheError::Io(error) => {
                                &&& end <= u64::MAX
                                &&& {
                                    ||| exists|held: CacheView<Identity<S>>|
                                        {
                                            &&& #[trigger] file_write_fails::<S>(node_opened(v, b, node), held, b, node, offset, bytes@, error)
                                            &&& node_closed(held, final(cache)@, b, node, count)
                                        }
                                    ||| written_not_synced::<S>(v, final(cache)@, b, node, offset, bytes@, e)
                                }
                            },
                            CacheError::PageBusy => {
                                &&& end <= contents.len()
                                &&& exists|held: CacheView<Identity<S>>|
                                    {
                                        &&& #[trigger] page_is_busy::<S>(node_opened(v, b, node), held, b, node, offset, bytes@.len() as int)
                                        &&& node_closed(held, final(cache)@, b, node, count)
                                    }
                            },
                            CacheError::StaleMapping => written_not_synced::<S>(v, final(cache)@, b, node, offset, bytes@, e),
                            _ => false,
                        }
                    },
                    Err(FileFailure::Close(e)) => {
                        &&& v.branches.contains_key(b) && count == 0
                        &&& end <= contents.len()
                        &&& only_files_changed(v, final(cache)@, b)
                        &&& exists|held: CacheView<Identity<S>>, stored: CacheView<Identity<S>>|
                            {
                                let was = stored.branches[b];
                                &&& #[trigger] written_through::<S>(node_opened(v, b, node), held, b, node, offset as int, bytes@)
                                &&& #[trigger] sync_ends::<S>(held, stored, b, node, Ok(()))
                                &&& node_closed(stored, final(cache)@, b, node, count)
                                &&& e matches CacheError::Io(error) && closing_fails::<S>(was.nodes, was.identities, node, error)
                            }
                    },
                }
            }),
    {
        let ghost v = cache@;
        let ghost b = self@.branch;
        let ghost count = open_count(v.branches[b].open, node);
        if let Err(error) = cache.open(self.branch, node) {
            return Err(FileFailure::Open(error));
        }
        let ghost opened = cache@;
        assert(opened == node_opened(v, b, node));
        assert(opened.branches.dom() =~= v.branches.dom());
        let result = cache.write(self.branch, node, offset, bytes);
        let ghost held = cache@;
        proof {
            assert(held.branches.dom() =~= v.branches.dom());
            assert(only_files_changed(v, held, b)) by {
                assert forall|x: u64| x != b && #[trigger] v.branches.contains_key(x) implies held.branches[x] == v.branches[x] by {
                    assert(opened.branches.contains_key(x));
                }
            }
            assert(held.branches[b].open == opened.branches[b].open);
            assert(held.branches.dom().contains(b));
        }
        let ghost written = result;
        let mut outcome: Result<(), CacheError> = Ok(());
        match result {
            Err(error) => {
                outcome = Err(error);
            },
            Ok(_) => {
                outcome = cache.sync(self.branch, node);
            },
        }
        let ghost stored = cache@;
        proof {
            assert(stored.branches[b].open == held.branches[b].open && only_files_changed(v, stored, b)) by {
                lemma_synced_only_files::<S>(held, stored, b, node, outcome);
            }
            assert(stored.branches.dom().contains(b));
        }
        let ghost synced = written is Ok && outcome is Ok;
        let close_result = cache.close(self.branch, node);
        proof {
            assert(node_closed(stored, cache@, b, node, count));
            assert(cache@.branches.dom() =~= v.branches.dom());
            assert(only_files_changed(v, cache@, b));
            if written is Ok {
                assert(written_through::<S>(node_opened(v, b, node), held, b, node, offset as int, bytes@));
                assert(sync_ends::<S>(held, stored, b, node, outcome));
                if outcome is Err {
                    assert(written_not_synced::<S>(v, cache@, b, node, offset, bytes@, outcome->Err_0));
                } else {
                    assert(sync_ends::<S>(held, stored, b, node, Ok(())));
                    if close_result is Err {
                        let was = stored.branches[b];
                        assert(stored.branches.contains_key(b));
                        assert(open_count(was.open, node) == count + 1);
                        assert(close_result->Err_0 is Io);
                        assert(closing_fails::<S>(was.nodes, was.identities, node, (close_result->Err_0)->Io_0));
                    }
                }
            } else {
                assert(stored == held);
                assert(written->Err_0 == outcome->Err_0);
                if outcome->Err_0 is Io {
                    assert(file_write_fails::<S>(node_opened(v, b, node), held, b, node, offset, bytes@, (outcome->Err_0)->Io_0));
                }
                if outcome->Err_0 is PageBusy {
                    assert(page_is_busy::<S>(node_opened(v, b, node), held, b, node, offset, bytes@.len() as int));
                }
            }
            if synced && close_result is Ok {
                let pages = choose|pages: Seq<PageKey>|
                    {
                        &&& #[trigger] dirty_pages(held.branches[b].dirty, node, pages)
                        &&& stored == pages_synced::<S>(held, b, held.branches[b].nodes[node].len() as int, pages, pages.len() as int)
                    };
                assert(written_through::<S>(node_opened(v, b, node), held, b, node, offset as int, bytes@));
                assert(dirty_pages(held.branches[b].dirty, node, pages));
            }
        }
        match outcome {
            Err(error) => Err(FileFailure::Access(error)),
            Ok(()) => match close_result {
                Err(error) => Err(FileFailure::Close(error)),
                Ok(()) => Ok(()),
            },
        }
    }

    /// Reads from a file through the cache.
    pub fn read_cached<S: ForkableNodeStore>(&self, cache: &mut SharedPageCache<S>, node: NodeId, offset: u64, len: usize) -> (r: Result<Vec<u8>, FileFailure>)
        requires
            old(cache).wf(),
            old(cache)@.next_page + pages_reached(offset as int, len as int) < u64::MAX - 1,
            countable(old(cache)@, self@.branch),
        ensures
            final(cache).wf(),
            ({
                let v = old(cache)@;
                let b = self@.branch;
                let count = open_count(v.branches[b].open, node);
                let opened = node_opened(v, b, node);
                let first = page_floor(offset as int);
                let read = readable(v.branches[b].nodes[node], offset as int, len as int);
                let shown = pages_in::<S>(opened, b, node, first, pages_reached(offset as int, read));
                match r {
                    Ok(bytes) => {
                        &&& v.branches.contains_key(b)
                        &&& bytes@ == seen_bytes::<S>(opened, b, node, offset as int, read as nat)
                        &&& node_closed(shown, final(cache)@, b, node, count)
                    },
                    Err(FileFailure::Open(e)) => open_fails::<S>(v, b, node, e, final(cache)@),
                    Err(FileFailure::Access(e)) => {
                        &&& v.branches.contains_key(b)
                        &&& e matches CacheError::Io(error) && exists|held: CacheView<Identity<S>>|
                            {
                                &&& #[trigger] file_read_fails::<S>(opened, held, b, node, offset, len as int, error)
                                &&& node_closed(held, final(cache)@, b, node, count)
                            }
                    },
                    Err(FileFailure::Close(e)) => {
                        let was = v.branches[b];
                        &&& v.branches.contains_key(b) && count == 0
                        &&& node_closed(shown, final(cache)@, b, node, count)
                        &&& e matches CacheError::Io(error) && closing_fails::<S>(was.nodes, was.identities, node, error)
                    },
                }
            }),
    {
        let ghost v = cache@;
        let ghost b = self@.branch;
        let ghost count = open_count(v.branches[b].open, node);
        if let Err(error) = cache.open(self.branch, node) {
            return Err(FileFailure::Open(error));
        }
        let ghost opened = cache@;
        assert(opened == node_opened(v, b, node));
        let mut bytes = zero_bytes(len);
        let result = cache.read(self.branch, node, offset, bytes.as_mut_slice());
        let ghost held = cache@;
        assert(opened == pages_in::<S>(opened, b, node, page_floor(offset as int), 0));
        let ghost pages: nat = choose|pages: nat| held == #[trigger] pages_in::<S>(opened, b, node, page_floor(offset as int), pages);
        proof {
            lemma_pages_in_branches::<S>(opened, b, node, page_floor(offset as int), pages);
        }
        let close_result = cache.close(self.branch, node);
        assert(node_closed(held, cache@, b, node, count));
        let read: usize = match result {
            Err(error) => {
                return Err(FileFailure::Access(error));
            },
            Ok(read) => read,
        };
        if let Err(error) = close_result {
            return Err(FileFailure::Close(error));
        }
        bytes.truncate(read);
        assert(bytes@ =~= seen_bytes::<S>(opened, b, node, offset as int, read as nat));
        Ok(bytes)
    }
}

/// Writing pages back changes nothing but the contents of the branch's store and its dirty marks.
proof fn lemma_pages_synced_only_files<S: ForkableNodeStore>(v: CacheView<Identity<S>>, b: u64, len: int, pages: Seq<PageKey>, count: int)
    requires
        v.branches.contains_key(b),
    ensures
        ({
            let w = pages_synced::<S>(v, b, len, pages, count);
            only_files_changed(v, w, b) && w.branches[b].open == v.branches[b].open
        }),
    decreases count,
{
    if count > 0 {
        lemma_pages_synced_only_files::<S>(v, b, len, pages, count - 1);
        let u = pages_synced::<S>(v, b, len, pages, count - 1);
        let w = pages_synced::<S>(v, b, len, pages, count);
        assert(u.branches.dom().contains(b));
        assert(w.branches.dom() =~= v.branches.dom());
        assert forall|x: u64| x != b && #[trigger] v.branches.contains_key(x) implies w.branches[x] == v.branches[x] by {
            assert(u.branches[x] == v.branches[x]);
        }
    }
}

/// So does syncing a node, however it ends.
proof fn lemma_synced_only_files<S: ForkableNodeStore>(
    v: CacheView<Identity<S>>,
    w: CacheView<Identity<S>>,
    b: u64,
    node: NodeId,
    r: Result<(), CacheError>,
)
    requires
        v.branches.contains_key(b),
        w == v || sync_ends::<S>(v, w, b, node, r),
    ensures
        only_files_changed(v, w, b),
        w.branches[b].open == v.branches[b].open,
{
    let len = v.branches[b].nodes[node].len() as int;
    if w != v {
        match r {
            Ok(()) => {
                let pages = choose|pages: Seq<PageKey>|
                    {
                        &&& #[trigger] dirty_pages(v.branches[b].dirty, node, pages)
                        &&& w == pages_synced::<S>(v, b, len, pages, pages.len() as int)
                    };
                lemma_pages_synced_only_files::<S>(v, b, len, pages, pages.len() as int);
            },
            Err(CacheError::StaleMapping) => {
                let (pages, count) = choose|pages: Seq<PageKey>, count: int|
                    {
                        &&& #[trigger] dirty_pages(v.branches[b].dirty, node, pages)
                        &&& w == #[trigger] pages_synced::<S>(v, b, len, pages, count)
                    };
                lemma_pages_synced_only_files::<S>(v, b, len, pages, count);
            },
            Err(CacheError::Io(_)) => {
                let (pages, count) = choose|pages: Seq<PageKey>, count: int|
                    {
                        &&& #[trigger] dirty_pages(v.branches[b].dirty, node, pages)
                        &&& differs_in_node(#[trigger] pages_synced::<S>(v, b, len, pages, count), w, b, node)
                    };
                lemma_pages_synced_only_files::<S>(v, b, len, pages, count);
                let u = pages_synced::<S>(v, b, len, pages, count);
                assert(u.branches.dom().contains(b));
                assert(w.branches.dom() =~= v.branches.dom());
                assert forall|x: u64| x != b && #[trigger] v.branches.contains_key(x) implies w.branches[x] == v.branches[x] by {
                    assert(u.branches[x] == v.branches[x]);
                }
            },
            Err(_) => {},
        }
    }
}

/// A new range takes nothing away from what the window is to show elsewhere.
pub proof fn setup_keeps_other_pages(v: WindowView, inode: u64, file_offset: u64, len: u64, writable: bool, window_offset: u64, o: u64)
    requires
        setup_refusal(v, inode, file_offset, len, window_offset) is None,
        v.specs.contains_key(o),
    ensures
        v.planned(inode as u32, file_offset, writable, window_offset, len as int / 4096).specs.contains_key(o),
        v.planned(inode as u32, file_offset, writable, window_offset, len as int / 4096).specs[o] == v.specs[o],
{
}

/// A range that could not be put into the window leaves the plan for the window as it was.
pub proof fn failed_setup_leaves_no_plan(v: WindowView, inode: u64, file_offset: u64, len: u64, writable: bool, window_offset: u64)
    requires
        v.wf(),
        setup_refusal(v, inode, file_offset, len, window_offset) is None,
    ensures
        v.planned(inode as u32, file_offset, writable, window_offset, len as int / 4096).without(page_offsets(window_offset, len as int / 4096)) == v,
{
    let count = len as int / 4096;
    let offsets = page_offsets(window_offset, count);
    let p = v.planned(inode as u32, file_offset, writable, window_offset, count);
    let w = p.without(offsets);
    assert forall|o: u64| #[trigger] w.specs.contains_key(o) <==> v.specs.contains_key(o) by {
        if o % 4096 == 0 && window_offset <= o < window_offset + 4096 * count {
            let i = (o - window_offset) / 4096;
            assert(offsets[i] == o);
        }
        if offsets.contains(o) {
            let i = choose|i: int| 0 <= i < offsets.len() && offsets[i] == o;
            assert(o == window_offset + 4096 * i);
            assert(!v.specs.contains_key(o));
        }
    }
    assert(w.specs =~= v.specs);
}

/// What the guest is shown of a node.
#[derive(Clone, Copy, Debug, Eq, PartialEq)]
pub struct FsNodeAttr {
    pub inode: u64,
    pub size: u64,
    pub blocks: u64,
    pub atime: (u64, u32),
    pub mtime: (u64, u32),
    pub ctime: (u64, u32),
    pub mode: u32,
    pub links: u32,
    pub uid: u32,
    pub gid: u32,
}

/// What the guest is shown of a node.
pub fn node_attr(metadata: NodeMetadata) -> (attr: FsNodeAttr)
    ensures
        attr == (FsNodeAttr {
            inode: metadata.id as u64,
            size: metadata.size,
            blocks: metadata.blocks_512,
            atime: metadata.atime,
            mtime: metadata.mtime,
            ctime: metadata.ctime,
            mode: metadata.mode,
            links: metadata.links,
            uid: metadata.uid,
            gid: metadata.gid,
        }),
{
    FsNodeAttr {
        inode: metadata.id as u64,
        size: metadata.size,
        blocks: metadata.blocks_512,
        atime: metadata.atime,
        mtime: metadata.mtime,
        ctime: metadata.ctime,
        mode: metadata.mode,
        links: metadata.links,
        uid: metadata.uid,
        gid: metadata.gid,
    }
}

impl VirtioFsBranch {
    /// Begins to fork the branch: the window is emptied, the cache's branch is forked, and the
    /// window is filled again.
    pub fn fork(&self) -> (barrier: Barrier<Error>)
        ensures
            barrier.fresh(),
    {
        Barrier::new()
    }

    /// Begins to write a file past the window: the window is emptied, the file is written, and the
    /// window is filled again.
    pub fn write(&self) -> (barrier: Barrier<Error>)
        ensures
            barrier.fresh(),
    {
        Barrier::new()
    }
}

impl VirtioFsBranch {
    /// The offsets at which pages are in the window, in order.
    pub fn active_offsets(&self) -> (offsets: Vec<u64>)
        ensures
            ascending::<u64>(offsets@),
            forall|o: u64| #[trigger] offsets@.contains(o) <==> self@.active.contains_key(o),
    {
        let n: usize = self.active.len();
        let mut offsets: Vec<u64> = Vec::new();
        let mut i: usize = 0;
        while i < n
            invariant
                i <= n,
                n == self.active.keys().len(),
                self.active.listed(),
                offsets@ == self.active.keys().take(i as int),
            decreases n - i,
        {
            offsets.push(*self.active.key_at(i));
            assert(self.active.keys().take(i + 1) =~= self.active.keys().take(i as int).push(self.active.keys()[i as int]));
            i += 1;
        }
        assert(offsets@ =~= self.active.keys());
        assert forall|o: u64| #[trigger] offsets@.contains(o) <==> self@.active.contains_key(o) by {
            assert(self.active@.contains_key(o) <==> self.active.keys().contains(o));
        }
        offsets
    }

    /// The page that is in the window at an offset.
    pub fn active_mapping(&self, offset: u64) -> (r: Option<&DaxPageMapping>)
        ensures
            match r {
                Some(mapping) => self@.active.contains_key(offset) && mapping@ == self@.active[offset],
                None => !self@.active.contains_key(offset),
            },
    {
        self.active.get(&offset)
    }
}

impl DaxTask {
    /// The page that is being put into the window or taken out of it.
    pub fn pending_mapping(&self) -> (r: Option<&DaxPageMapping>)
        ensures
            match r {
                Some(mapping) => self@.pending matches Some((_, pending)) && mapping@ == pending,
                None => self@.pending is None,
            },
    {
        match &self.pending {
            Some((_, mapping)) => Some(mapping),
            None => None,
        }
    }
}

} // verus!
