//! How the layer and overlay files of a saved disk follow each other.
//!
//! The files themselves are made, linked and synced outside; here stand the decisions which
//! operation comes next and what its outcome changes.

use std::sync::Arc;

use vstd::prelude::*;

use crate::layered::extend;
use crate::ordered::OrdMap;
use crate::redox::records::{load_records, Block, LayerError};
#[allow(unused_imports)]
use crate::redox::records::{block_views, full_blocks, load_ends, BlockView, Blocks, LoadView};

verus! {

/// Where the blocks of a saved disk are: its layers, oldest first, and the overlay that was
/// written last.
#[derive(Debug)]
pub struct DurableDiskState {
    pub size: u64,
    pub layers: Vec<u64>,
    pub overlay: u64,
}

/// The files of a disk that is kept on storage.
#[derive(Debug)]
pub struct DurableCowDisk {
    layers: Vec<u64>,
    overlay: u64,
}

/// The files of a disk: its layers, oldest first, and the overlay that takes new writes.
#[verifier::ext_equal]
pub struct DurableView {
    pub layers: Seq<u64>,
    pub overlay: u64,
}

impl View for DurableCowDisk {
    type V = DurableView;

    closed spec fn view(&self) -> DurableView {
        DurableView { layers: self.layers@, overlay: self.overlay }
    }
}

/// Numbers for layer and overlay files.
pub fn next_durable_id(next: &mut u64) -> (id: u64)
    requires
        *old(next) < u64::MAX,
    ensures
        id == *old(next),
        *final(next) == *old(next) + 1,
{
    let id: u64 = *next;
    *next = id + 1;
    id
}

/// An operation on the files of a disk. Where it makes a file, its outcome is the file's number.
#[derive(Clone, Copy, Debug, Eq, PartialEq, Structural)]
pub enum DiskAction {
    /// Read the layer with this number.
    ReadLayer(u64),
    /// Read the overlay with this number.
    ReadOverlay(u64),
    /// Sync the layer with this number.
    SyncLayer(u64),
    /// Sync the overlay.
    SyncOverlay,
    /// Link the overlay with this number as a new layer.
    LinkOverlay(u64),
    /// Make a new, empty overlay.
    CreateOverlay,
    /// Make a new, empty overlay for the child.
    CreateChildOverlay,
    /// Sync the directory.
    SyncDirectory,
    /// Nothing is left to do.
    Finished,
}

/// How far a fork has come.
#[derive(Clone, Copy, Debug, Eq, PartialEq, Structural)]
pub enum ForkStage {
    Link,
    Overlay,
    Child,
    Done(u64),
}

impl ForkStage {
    /// Where a fork begins; writes since the last fork are first sealed in a layer.
    pub fn start(seal_overlay: bool) -> (stage: ForkStage)
        ensures
            stage == (if seal_overlay {
                ForkStage::Link
            } else {
                ForkStage::Child
            }),
    {
        if seal_overlay {
            ForkStage::Link
        } else {
            ForkStage::Child
        }
    }
}

/// How far saving a disk has come.
#[derive(Clone, Copy, Debug, Eq, PartialEq, Structural)]
pub enum CheckpointStage {
    /// The layer at this place is to be synced.
    Layer(usize),
    Overlay,
    Link,
    LinkedLayer(u64),
    NewOverlay(Option<u64>),
    Directory(Option<u64>, u64),
    Done,
}

pub open spec fn fork_action(stage: ForkStage, disk: DurableView) -> DiskAction {
    match stage {
        ForkStage::Link => DiskAction::LinkOverlay(disk.overlay),
        ForkStage::Overlay => DiskAction::CreateOverlay,
        ForkStage::Child => DiskAction::CreateChildOverlay,
        ForkStage::Done(_) => DiskAction::Finished,
    }
}

/// Where a fork stands once the operation at hand has made the file `id`, and the disk then.
pub open spec fn fork_after(stage: ForkStage, disk: DurableView, id: u64) -> (ForkStage, DurableView) {
    match stage {
        ForkStage::Link => (ForkStage::Overlay, DurableView { layers: disk.layers.push(id), ..disk }),
        ForkStage::Overlay => (ForkStage::Child, DurableView { overlay: id, ..disk }),
        ForkStage::Child => (ForkStage::Done(id), disk),
        ForkStage::Done(child) => (ForkStage::Done(child), disk),
    }
}

pub open spec fn checkpoint_action(stage: CheckpointStage, disk: DurableView) -> DiskAction {
    match stage {
        CheckpointStage::Layer(i) => DiskAction::SyncLayer(disk.layers[i as int]),
        CheckpointStage::Overlay => DiskAction::SyncOverlay,
        CheckpointStage::Link => DiskAction::LinkOverlay(disk.overlay),
        CheckpointStage::LinkedLayer(layer) => DiskAction::SyncLayer(layer),
        CheckpointStage::NewOverlay(_) => DiskAction::CreateOverlay,
        CheckpointStage::Directory(_, _) => DiskAction::SyncDirectory,
        CheckpointStage::Done => DiskAction::Finished,
    }
}

/// Where saving a disk stands once the operation at hand is done, and the disk then; nothing about
/// the disk changes before the last operation.
pub open spec fn checkpoint_after(stage: CheckpointStage, disk: DurableView, seal: bool, id: u64) -> (CheckpointStage, DurableView) {
    match stage {
        CheckpointStage::Layer(i) => (layer_stage(disk, i + 1), disk),
        CheckpointStage::Overlay => (
            if seal {
                CheckpointStage::Link
            } else {
                CheckpointStage::NewOverlay(None)
            },
            disk,
        ),
        CheckpointStage::Link => (CheckpointStage::LinkedLayer(id), disk),
        CheckpointStage::LinkedLayer(layer) => (CheckpointStage::NewOverlay(Some(layer)), disk),
        CheckpointStage::NewOverlay(layer) => (CheckpointStage::Directory(layer, id), disk),
        CheckpointStage::Directory(layer, overlay) => (
            CheckpointStage::Done,
            DurableView {
                layers: match layer {
                    Some(layer) => disk.layers.push(layer),
                    None => disk.layers,
                },
                overlay,
            },
        ),
        CheckpointStage::Done => (CheckpointStage::Done, disk),
    }
}

/// The layer at place `i` is synced next, or the overlay where there is none.
pub open spec fn layer_stage(disk: DurableView, i: int) -> CheckpointStage {
    if i < disk.layers.len() {
        CheckpointStage::Layer(i as usize)
    } else {
        CheckpointStage::Overlay
    }
}

/// Whether a stage of saving speaks of a layer that is there.
pub open spec fn stage_fits(stage: CheckpointStage, disk: DurableView) -> bool {
    stage matches CheckpointStage::Layer(i) ==> i < disk.layers.len()
}

fn copy_numbers(numbers: &Vec<u64>) -> (copy: Vec<u64>)
    ensures
        copy@ == numbers@,
{
    let n: usize = numbers.len();
    let mut copy: Vec<u64> = Vec::new();
    let mut i: usize = 0;
    while i < n
        invariant
            i <= n,
            n == numbers@.len(),
            copy@ == numbers@.take(i as int),
        decreases n - i,
    {
        copy.push(numbers[i]);
        assert(numbers@.take(i + 1) =~= numbers@.take(i as int).push(numbers@[i as int]));
        i += 1;
    }
    assert(numbers@.take(n as int) =~= numbers@);
    copy
}

impl DurableCowDisk {
    /// A disk without layers over an empty overlay.
    pub fn create(overlay: u64) -> (disk: Self)
        ensures
            disk@ == (DurableView { layers: Seq::empty(), overlay }),
    {
        DurableCowDisk { layers: Vec::new(), overlay }
    }

    /// The overlay that takes new writes.
    pub fn overlay(&self) -> (overlay: u64)
        ensures
            overlay == self@.overlay,
    {
        self.overlay
    }

    pub fn fork_action(&self, stage: ForkStage) -> (action: DiskAction)
        ensures
            action == fork_action(stage, self@),
    {
        match stage {
            ForkStage::Link => DiskAction::LinkOverlay(self.overlay),
            ForkStage::Overlay => DiskAction::CreateOverlay,
            ForkStage::Child => DiskAction::CreateChildOverlay,
            ForkStage::Done(_) => DiskAction::Finished,
        }
    }

    pub fn fork_advance(&mut self, stage: ForkStage, id: u64) -> (next: ForkStage)
        ensures
            (next, final(self)@) == fork_after(stage, old(self)@, id),
    {
        let ghost before = self@;
        match stage {
            ForkStage::Link => {
                self.layers.push(id);
                assert(self@.layers =~= before.layers.push(id));
                ForkStage::Overlay
            },
            ForkStage::Overlay => {
                self.overlay = id;
                ForkStage::Child
            },
            ForkStage::Child => ForkStage::Done(id),
            ForkStage::Done(child) => ForkStage::Done(child),
        }
    }

    /// The files of the child once a fork has made its overlay.
    pub fn fork_child(&self, overlay: u64) -> (child: Self)
        ensures
            child@ == (DurableView { layers: self@.layers, overlay }),
    {
        DurableCowDisk { layers: copy_numbers(&self.layers), overlay }
    }

    /// What has to be known to find a disk of this size again as it is now, and where saving it
    /// begins.
    pub fn checkpoint(&self, size: u64) -> (r: (DurableDiskState, CheckpointStage))
        ensures
            r.0.size == size,
            r.0.layers@ == self@.layers,
            r.0.overlay == self@.overlay,
            r.1 == layer_stage(self@, 0),
            stage_fits(r.1, self@),
    {
        let state = DurableDiskState { size, layers: copy_numbers(&self.layers), overlay: self.overlay };
        if self.layers.len() > 0 {
            (state, CheckpointStage::Layer(0))
        } else {
            (state, CheckpointStage::Overlay)
        }
    }

    pub fn checkpoint_action(&self, stage: CheckpointStage) -> (action: DiskAction)
        requires
            stage_fits(stage, self@),
        ensures
            action == checkpoint_action(stage, self@),
    {
        match stage {
            CheckpointStage::Layer(i) => DiskAction::SyncLayer(self.layers[i]),
            CheckpointStage::Overlay => DiskAction::SyncOverlay,
            CheckpointStage::Link => DiskAction::LinkOverlay(self.overlay),
            CheckpointStage::LinkedLayer(layer) => DiskAction::SyncLayer(layer),
            CheckpointStage::NewOverlay(_) => DiskAction::CreateOverlay,
            CheckpointStage::Directory(_, _) => DiskAction::SyncDirectory,
            CheckpointStage::Done => DiskAction::Finished,
        }
    }

    pub fn checkpoint_advance(&mut self, stage: CheckpointStage, seal_overlay: bool, id: u64) -> (next: CheckpointStage)
        requires
            stage_fits(stage, old(self)@),
        ensures
            (next, final(self)@) == checkpoint_after(stage, old(self)@, seal_overlay, id),
            stage_fits(next, final(self)@),
    {
        let ghost before = self@;
        match stage {
            CheckpointStage::Layer(i) => {
                let n: usize = self.layers.len();
                if i < n - 1 {
                    CheckpointStage::Layer(i + 1)
                } else {
                    CheckpointStage::Overlay
                }
            },
            CheckpointStage::Overlay => {
                if seal_overlay {
                    CheckpointStage::Link
                } else {
                    CheckpointStage::NewOverlay(None)
                }
            },
            CheckpointStage::Link => CheckpointStage::LinkedLayer(id),
            CheckpointStage::LinkedLayer(layer) => CheckpointStage::NewOverlay(Some(layer)),
            CheckpointStage::NewOverlay(layer) => CheckpointStage::Directory(layer, id),
            CheckpointStage::Directory(layer, overlay) => {
                if let Some(layer) = layer {
                    self.layers.push(layer);
                    assert(self@.layers =~= before.layers.push(layer));
                }
                self.overlay = overlay;
                CheckpointStage::Done
            },
            CheckpointStage::Done => CheckpointStage::Done,
        }
    }
}

/// How far reading a disk back has come.
#[derive(Clone, Copy, Debug, Eq, PartialEq, Structural)]
pub enum RestoreStage {
    /// The layer at this place is to be read.
    Layer(usize),
    Overlay,
    Link,
    LinkedLayer(u64),
    NewOverlay(Option<u64>),
    Directory(Option<u64>, u64),
    Done(Option<u64>, u64),
}

/// The files that a disk is read back from.
#[verifier::ext_equal]
pub struct SavedView {
    pub layers: Seq<u64>,
    pub overlay: u64,
}

/// A disk that is being read back.
#[verifier::ext_equal]
pub struct RestoreView {
    pub saved: SavedView,
    pub stage: RestoreStage,
    /// The blocks seen in the layers.
    pub base: Blocks,
    /// The blocks seen in the overlay.
    pub snapshot: Blocks,
}

impl RestoreView {
    /// The layer at place `i` is read next, or the overlay where there is none.
    pub open spec fn reading(self, i: int) -> RestoreStage {
        if i < self.saved.layers.len() {
            RestoreStage::Layer(i as usize)
        } else {
            RestoreStage::Overlay
        }
    }

    pub open spec fn action(self) -> DiskAction {
        match self.stage {
            RestoreStage::Layer(i) => DiskAction::ReadLayer(self.saved.layers[i as int]),
            RestoreStage::Overlay => DiskAction::ReadOverlay(self.saved.overlay),
            RestoreStage::Link => DiskAction::LinkOverlay(self.saved.overlay),
            RestoreStage::LinkedLayer(layer) => DiskAction::SyncLayer(layer),
            RestoreStage::NewOverlay(_) => DiskAction::CreateOverlay,
            RestoreStage::Directory(_, _) => DiskAction::SyncDirectory,
            RestoreStage::Done(_, _) => DiskAction::Finished,
        }
    }

    pub open spec fn wf(self) -> bool {
        &&& self.stage matches RestoreStage::Layer(i) ==> i < self.saved.layers.len()
        &&& full_blocks(self.base)
        &&& full_blocks(self.snapshot)
    }

    /// The files of the disk once it is read back, with an overlay of its own.
    pub open spec fn files(self, layer: Option<u64>, overlay: u64) -> DurableView {
        DurableView {
            layers: match layer {
                Some(layer) => self.saved.layers.push(layer),
                None => self.saved.layers,
            },
            overlay,
        }
    }

    /// The blocks of the disk once it is read back: those of the overlay over those of the layers.
    pub open spec fn blocks(self) -> Blocks {
        self.base.union_prefer_right(self.snapshot)
    }

    /// Where reading back stands once the operation at hand, which reads no file, is done.
    pub open spec fn after(self, id: u64) -> RestoreView {
        RestoreView {
            stage: match self.stage {
                RestoreStage::Link => RestoreStage::LinkedLayer(id),
                RestoreStage::LinkedLayer(layer) => RestoreStage::NewOverlay(Some(layer)),
                RestoreStage::NewOverlay(layer) => RestoreStage::Directory(layer, id),
                RestoreStage::Directory(layer, overlay) => RestoreStage::Done(layer, overlay),
                other => other,
            },
            ..self
        }
    }
}

/// What the disks of one lineage that were read back share: the blocks that are known, and the numbers
/// from which new blocks and new files are numbered.
#[verifier::ext_equal]
pub struct LoadedView {
    pub objects: Blocks,
    pub next_block: u64,
    pub next_durable: u64,
}

/// Whether reading back goes on so once the file that was to be read is taken in, or refused.
pub open spec fn file_taken_in(v: RestoreView, w: RestoreView, was: LoadedView, now: LoadedView, file: Seq<u8>, r: Result<(), LayerError>) -> bool {
    &&& w.saved == v.saved
    &&& match v.stage {
        RestoreStage::Layer(i) => {
            &&& load_ends(
                LoadView { objects: was.objects, visible: v.base, next_block: was.next_block },
                LoadView { objects: now.objects, visible: w.base, next_block: now.next_block },
                file,
                r,
            )
            &&& w.snapshot == v.snapshot
            &&& now.next_durable == was.next_durable
            &&& w.stage == (if r is Ok {
                v.reading(i + 1)
            } else {
                v.stage
            })
        },
        _ => {
            &&& load_ends(
                LoadView { objects: was.objects, visible: v.snapshot, next_block: was.next_block },
                LoadView { objects: now.objects, visible: w.snapshot, next_block: now.next_block },
                file,
                r,
            )
            &&& w.base == v.base
            &&& r is Ok ==> reserved(was.next_durable, v.saved.layers.push(v.saved.overlay), now.next_durable)
            &&& r is Err ==> now.next_durable == was.next_durable
            &&& w.stage == (if r is Err {
                v.stage
            } else if file.len() > 0 {
                RestoreStage::Link
            } else {
                RestoreStage::NewOverlay(None)
            })
        },
    }
}

/// A disk that is being read back: its layers, oldest first, then its overlay, which becomes the
/// newest layer unless it is empty.
#[derive(Debug)]
pub struct RestoringDisk {
    layers: Vec<u64>,
    overlay: u64,
    stage: RestoreStage,
    base: OrdMap<u64, Arc<Block>>,
    snapshot: OrdMap<u64, Arc<Block>>,
}

impl View for RestoringDisk {
    type V = RestoreView;

    closed spec fn view(&self) -> RestoreView {
        RestoreView {
            saved: SavedView { layers: self.layers@, overlay: self.overlay },
            stage: self.stage,
            base: block_views(self.base@),
            snapshot: block_views(self.snapshot@),
        }
    }
}

impl RestoringDisk {
    pub fn new(state: &DurableDiskState) -> (disk: Self)
        ensures
            disk@.wf(),
            disk@.saved == (SavedView { layers: state.layers@, overlay: state.overlay }),
            disk@.stage == disk@.reading(0),
            disk@.base == Map::<u64, BlockView>::empty(),
            disk@.snapshot == Map::<u64, BlockView>::empty(),
    {
        let layers = copy_numbers(&state.layers);
        let stage = if layers.len() > 0 {
            RestoreStage::Layer(0)
        } else {
            RestoreStage::Overlay
        };
        let disk = RestoringDisk { layers, overlay: state.overlay, stage, base: OrdMap::new(), snapshot: OrdMap::new() };
        assert(disk@.base =~= Map::<u64, BlockView>::empty());
        assert(disk@.snapshot =~= Map::<u64, BlockView>::empty());
        disk
    }

    /// The operation at hand.
    pub fn action(&self) -> (action: DiskAction)
        requires
            self@.wf(),
        ensures
            action == self@.action(),
    {
        match self.stage {
            RestoreStage::Layer(i) => DiskAction::ReadLayer(self.layers[i]),
            RestoreStage::Overlay => DiskAction::ReadOverlay(self.overlay),
            RestoreStage::Link => DiskAction::LinkOverlay(self.overlay),
            RestoreStage::LinkedLayer(layer) => DiskAction::SyncLayer(layer),
            RestoreStage::NewOverlay(_) => DiskAction::CreateOverlay,
            RestoreStage::Directory(_, _) => DiskAction::SyncDirectory,
            RestoreStage::Done(_, _) => DiskAction::Finished,
        }
    }

    /// Takes in the file that was to be read. Once the overlay is read, file numbers begin above
    /// those that the disk uses.
    pub fn loaded(
        &mut self,
        file: &[u8],
        objects: &mut OrdMap<u64, Arc<Block>>,
        next_block: &mut u64,
        next_durable: &mut u64,
    ) -> (r: Result<(), LayerError>)
        requires
            old(self)@.wf(),
            old(self)@.stage is Layer || old(self)@.stage is Overlay,
        ensures
            final(self)@.wf(),
            file_taken_in(
                old(self)@,
                final(self)@,
                LoadedView { objects: block_views(old(objects)@), next_block: *old(next_block), next_durable: *old(next_durable) },
                LoadedView { objects: block_views(final(objects)@), next_block: *final(next_block), next_durable: *final(next_durable) },
                file@,
                r,
            ),
    {
        let ghost v = self@;
        match self.stage {
            RestoreStage::Layer(i) => {
                load_records(file, objects, &mut self.base, next_block)?;
                let n: usize = self.layers.len();
                self.stage = if i < n - 1 {
                    RestoreStage::Layer(i + 1)
                } else {
                    RestoreStage::Overlay
                };
            },
            _ => {
                load_records(file, objects, &mut self.snapshot, next_block)?;
                reserve_durable_ids(next_durable, &self.layers, self.overlay);
                self.stage = if file.len() > 0 {
                    RestoreStage::Link
                } else {
                    RestoreStage::NewOverlay(None)
                };
            },
        }
        Ok(())
    }

    /// Goes on once the operation at hand, which reads no file, is done.
    pub fn advance(&mut self, id: u64)
        requires
            old(self)@.wf(),
        ensures
            final(self)@.wf(),
            final(self)@ == old(self)@.after(id),
    {
        self.stage = match self.stage {
            RestoreStage::Link => RestoreStage::LinkedLayer(id),
            RestoreStage::LinkedLayer(layer) => RestoreStage::NewOverlay(Some(layer)),
            RestoreStage::NewOverlay(layer) => RestoreStage::Directory(layer, id),
            RestoreStage::Directory(layer, overlay) => RestoreStage::Done(layer, overlay),
            other => other,
        };
    }

    /// The files of the disk, and the blocks that were read: those of the overlay over those of the
    /// layers. There is nothing yet while an operation is left to do.
    pub fn finish(self) -> (r: Option<(DurableCowDisk, OrdMap<u64, Arc<Block>>)>)
        ensures
            match self@.stage {
                RestoreStage::Done(layer, overlay) => {
                    &&& r is Some
                    &&& r->Some_0.0@ == self@.files(layer, overlay)
                    &&& block_views(r->Some_0.1@) == self@.blocks()
                    &&& self@.wf() ==> full_blocks(block_views(r->Some_0.1@))
                },
                _ => r is None,
            },
    {
        match self.stage {
            RestoreStage::Done(layer, overlay) => {
                let mut layers = self.layers;
                if let Some(layer) = layer {
                    layers.push(layer);
                    assert(layers@ =~= self@.saved.layers.push(layer));
                }
                let mut blocks = self.base;
                extend(&mut blocks, &self.snapshot);
                assert(block_views(blocks@) =~= self@.base.union_prefer_right(self@.snapshot));
                Some((DurableCowDisk { layers, overlay }, blocks))
            },
            _ => None,
        }
    }
}

/// The number after `id`, or the largest there is.
pub open spec fn above(id: u64) -> u64 {
    if id < u64::MAX {
        (id + 1) as u64
    } else {
        u64::MAX
    }
}

/// Whether `now` is the least number that is not below `was` and above all of the given ones, as
/// far as numbers go.
pub open spec fn reserved(was: u64, ids: Seq<u64>, now: u64) -> bool {
    &&& was <= now
    &&& forall|i: int| 0 <= i < ids.len() ==> above(#[trigger] ids[i]) <= now
    &&& now == was || exists|i: int| 0 <= i < ids.len() && now == above(#[trigger] ids[i])
}

/// Lets file numbers begin above those that a saved disk uses.
fn reserve_durable_ids(next: &mut u64, layers: &Vec<u64>, overlay: u64)
    ensures
        reserved(*old(next), layers@.push(overlay), *final(next)),
{
    let ghost ids = layers@.push(overlay);
    let n: usize = layers.len();
    let mut largest: u64 = overlay;
    assert(ids[n as int] == largest);
    let mut i: usize = 0;
    while i < n
        invariant
            i <= n,
            n == layers@.len(),
            ids == layers@.push(overlay),
            largest >= overlay,
            forall|j: int| 0 <= j < i ==> layers@[j] <= largest,
            ids.contains(largest),
        decreases n - i,
    {
        if layers[i] > largest {
            largest = layers[i];
            assert(ids[i as int] == largest);
        }
        i += 1;
    }
    let number: u64 = if largest < u64::MAX {
        largest + 1
    } else {
        u64::MAX
    };
    if number > *next {
        *next = number;
        let ghost at = choose|at: int| 0 <= at < ids.len() && ids[at] == largest;
        assert(above(ids[at]) == number);
    }
    assert forall|j: int| 0 <= j < ids.len() implies above(#[trigger] ids[j]) <= *next by {
        if j < n {
            assert(ids[j] == layers@[j]);
        }
    }
}

/// A fork that seals the overlay leaves both branches over the layers that were there and the
/// sealed one, each with an overlay of its own; one that does not leaves the source as it was.
pub proof fn fork_seals_the_overlay(disk: DurableView, layer: u64, overlay: u64, child: u64)
    ensures
        ({
            let (linked, one) = fork_after(ForkStage::Link, disk, layer);
            let (made, two) = fork_after(linked, one, overlay);
            let (done, three) = fork_after(made, two, child);
            &&& fork_action(ForkStage::Link, disk) == DiskAction::LinkOverlay(disk.overlay)
            &&& fork_action(linked, one) == DiskAction::CreateOverlay
            &&& fork_action(made, two) == DiskAction::CreateChildOverlay
            &&& done == ForkStage::Done(child)
            &&& three == (DurableView { layers: disk.layers.push(layer), overlay })
        }),
        fork_after(ForkStage::Child, disk, child) == (ForkStage::Done(child), disk),
{
}

/// Until its last operation is done, saving a disk leaves it as it is; then writes go to a new
/// overlay, over what was saved.
pub proof fn checkpoint_changes_the_disk_last(stage: CheckpointStage, disk: DurableView, seal: bool, id: u64)
    ensures
        checkpoint_after(stage, disk, seal, id).0 != CheckpointStage::Done ==> checkpoint_after(stage, disk, seal, id).1 == disk,
        stage matches CheckpointStage::Directory(layer, overlay) ==> checkpoint_after(stage, disk, seal, id) == (
            CheckpointStage::Done,
            DurableView {
                layers: match layer {
                    Some(layer) => disk.layers.push(layer),
                    None => disk.layers,
                },
                overlay,
            },
        ),
{
}

} // verus!
