//! What is known of a filesystem branch besides its blocks.

use std::sync::Arc;

use vstd::prelude::*;

use crate::cache::store::NodeId;
use crate::io::{IoError, EIO};
use crate::ordered::OrdMap;
use crate::redox::durable::{DurableDiskState, RestoringDisk};
#[allow(unused_imports)]
use crate::redox::durable::{above, file_taken_in, LoadedView};
use crate::redox::identity::{IdentityBranch, IdentitySource, RedoxFileIdentity, RedoxPageVersion};
#[allow(unused_imports)]
use crate::redox::identity::{files_of, pages_of, saved_files, saved_pages, IdentityView};
use crate::redox::records::{Block, LayerError};
#[allow(unused_imports)]
use crate::redox::records::{block_views, BlockView, Blocks};

verus! {

/// What a directory listing or a lookup shows of a node.
#[derive(Clone, Copy, Debug, Eq, PartialEq)]
pub struct NodeMetadata {
    pub id: NodeId,
    pub size: u64,
    pub blocks_512: u64,
    pub mode: u32,
    pub links: u32,
    pub uid: u32,
    pub gid: u32,
    pub atime: (u64, u32),
    pub mtime: (u64, u32),
    pub ctime: (u64, u32),
}

/// A number of disk blocks, counted in units of 512 bytes.
pub fn blocks_512(blocks: u64) -> (units: u64)
    requires
        blocks * 8 <= u64::MAX,
    ensures
        units == blocks * 8,
{
    blocks * 8
}

/// One entry of a directory.
#[derive(Debug)]
pub struct DirectoryEntry {
    pub id: NodeId,
    pub name: String,
}

/// The entries of a directory; one whose name cannot be read makes the listing fail.
pub fn directory_entries(found: Vec<(NodeId, Option<String>)>) -> (r: Result<Vec<DirectoryEntry>, IoError>)
    ensures
        match r {
            Ok(entries) => {
                &&& entries@.len() == found@.len()
                &&& forall|i: int| 0 <= i < found@.len() ==> (#[trigger] entries@[i]).id == found@[i].0 && found@[i].1 is Some && entries@[i].name@
                    == found@[i].1->Some_0@
            },
            Err(e) => e == IoError::Os(EIO) && exists|i: int| 0 <= i < found@.len() && (#[trigger] found@[i]).1 is None,
        },
{
    let n: usize = found.len();
    let mut entries: Vec<DirectoryEntry> = Vec::new();
    let mut i: usize = 0;
    while i < n
        invariant
            i <= n,
            n == found@.len(),
            entries@.len() == i,
            forall|j: int| 0 <= j < i ==> (#[trigger] entries@[j]).id == found@[j].0 && found@[j].1 is Some && entries@[j].name@ == found@[j].1->Some_0@,
        decreases n - i,
    {
        match &found[i].1 {
            Some(name) => {
                entries.push(DirectoryEntry { id: found[i].0, name: name.clone() });
            },
            None => {
                assert(found@[i as int].1 is None);
                return Err(IoError::Os(EIO));
            },
        }
        i += 1;
    }
    Ok(entries)
}

/// What is saved of a branch. Its blocks stay in the layers of its disk.
#[derive(Debug)]
pub struct RedoxBranchState {
    pub disk: DurableDiskState,
    pub header_block: u64,
    pub files: Vec<RedoxFileIdentity>,
    pub pages: Vec<RedoxPageVersion>,
}

/// Puts together what is saved of a branch.
pub fn branch_state(disk: DurableDiskState, header_block: u64, identities: &IdentityBranch) -> (state: RedoxBranchState)
    ensures
        state.disk == disk,
        state.header_block == header_block,
        saved_files(identities@, state.files@),
        saved_pages(identities@, state.pages@),
{
    RedoxBranchState { disk, header_block, files: identities.visible_files(), pages: identities.visible_pages() }
}

/// The branches of a lineage that is being read back: their blocks, each known once for all of
/// them, and the largest identities that they use.
#[derive(Debug)]
pub struct RestoringLineage {
    objects: OrdMap<u64, Arc<Block>>,
    max_file: u64,
    max_version: u64,
}

/// What is known of a lineage that is being read back.
#[verifier::ext_equal]
pub struct LineageView {
    pub objects: Blocks,
    pub max_file: u64,
    pub max_version: u64,
}

impl View for RestoringLineage {
    type V = LineageView;

    closed spec fn view(&self) -> LineageView {
        LineageView { objects: block_views(self.objects@), max_file: self.max_file, max_version: self.max_version }
    }
}

/// Whether `largest` is the largest of `start` and the given numbers.
pub open spec fn is_largest(start: u64, numbers: Seq<u64>, largest: u64) -> bool {
    &&& start <= largest
    &&& forall|i: int| 0 <= i < numbers.len() ==> #[trigger] numbers[i] <= largest
    &&& largest == start || numbers.contains(largest)
}

impl RestoringLineage {
    pub fn new() -> (lineage: Self)
        ensures
            lineage@ == (LineageView { objects: Map::empty(), max_file: 0, max_version: 0 }),
    {
        let lineage = RestoringLineage { objects: OrdMap::new(), max_file: 0, max_version: 0 };
        assert(lineage@.objects =~= Map::<u64, BlockView>::empty());
        lineage
    }

    /// Takes in a file of a branch's disk.
    pub fn loaded(&mut self, disk: &mut RestoringDisk, file: &[u8], next_block: &mut u64, next_durable: &mut u64) -> (r: Result<(), LayerError>)
        requires
            old(disk)@.wf(),
            old(disk)@.stage is Layer || old(disk)@.stage is Overlay,
        ensures
            final(disk)@.wf(),
            final(self)@.max_file == old(self)@.max_file,
            final(self)@.max_version == old(self)@.max_version,
            file_taken_in(
                old(disk)@,
                final(disk)@,
                LoadedView { objects: old(self)@.objects, next_block: *old(next_block), next_durable: *old(next_durable) },
                LoadedView { objects: final(self)@.objects, next_block: *final(next_block), next_durable: *final(next_durable) },
                file@,
                r,
            ),
    {
        disk.loaded(file, &mut self.objects, next_block, next_durable)
    }

    /// The identities of a branch, as they were saved.
    pub fn identities(&mut self, files: &Vec<RedoxFileIdentity>, pages: &Vec<RedoxPageVersion>) -> (branch: IdentityBranch)
        ensures
            branch@ == (IdentityView { files: files_of(files@), pages: pages_of(pages@) }),
            final(self)@.objects == old(self)@.objects,
            is_largest(old(self)@.max_file, files@.map_values(|f: RedoxFileIdentity| f.object), final(self)@.max_file),
            is_largest(old(self)@.max_version, pages@.map_values(|p: RedoxPageVersion| p.version), final(self)@.max_version),
    {
        let ghost objects = files@.map_values(|f: RedoxFileIdentity| f.object);
        let ghost versions = pages@.map_values(|p: RedoxPageVersion| p.version);
        let n: usize = files.len();
        let mut i: usize = 0;
        while i < n
            invariant
                i <= n,
                n == files@.len(),
                objects == files@.map_values(|f: RedoxFileIdentity| f.object),
                self.objects == old(self).objects,
                self.max_version == old(self).max_version,
                old(self).max_file <= self.max_file,
                forall|j: int| 0 <= j < i ==> #[trigger] objects[j] <= self.max_file,
                self.max_file == old(self).max_file || objects.contains(self.max_file),
            decreases n - i,
        {
            if files[i].object > self.max_file {
                self.max_file = files[i].object;
                assert(objects[i as int] == self.max_file);
            }
            i += 1;
        }
        let m: usize = pages.len();
        i = 0;
        while i < m
            invariant
                i <= m,
                m == pages@.len(),
                versions == pages@.map_values(|p: RedoxPageVersion| p.version),
                self.objects == old(self).objects,
                is_largest(old(self)@.max_file, objects, self.max_file),
                old(self).max_version <= self.max_version,
                forall|j: int| 0 <= j < i ==> #[trigger] versions[j] <= self.max_version,
                self.max_version == old(self).max_version || versions.contains(self.max_version),
            decreases m - i,
        {
            if pages[i].version > self.max_version {
                self.max_version = pages[i].version;
                assert(versions[i as int] == self.max_version);
            }
            i += 1;
        }
        IdentityBranch::restore(files, pages)
    }

    /// Lets new identities begin above those that the lineage uses.
    pub fn finish(&self, source: &mut IdentitySource)
        ensures
            *final(source) == (IdentitySource {
                next_object: if above(self@.max_file) > old(source).next_object {
                    above(self@.max_file)
                } else {
                    old(source).next_object
                },
                next_version: if above(self@.max_version) > old(source).next_version {
                    above(self@.max_version)
                } else {
                    old(source).next_version
                },
            }),
    {
        let object: u64 = if self.max_file < u64::MAX {
            self.max_file + 1
        } else {
            u64::MAX
        };
        let version: u64 = if self.max_version < u64::MAX {
            self.max_version + 1
        } else {
            u64::MAX
        };
        if object > source.next_object {
            source.next_object = object;
        }
        if version > source.next_version {
            source.next_version = version;
        }
    }
}

} // verus!
