//! What whole protocols on the files of a disk come to.
//!
//! A disk is the blocks that its files hold: those of its layers, the older under the newer, and over
//! them those of its overlay.

use vstd::prelude::*;

#[allow(unused_imports)]
use crate::redox::durable::{
    checkpoint_action, checkpoint_after, file_taken_in, fork_action, fork_after, layer_stage, reserved, CheckpointStage, DiskAction, DurableView,
    ForkStage, LoadedView, RestoreStage, RestoreView,
};
#[allow(unused_imports)]
use crate::redox::laws::{agrees, all_writes, applied, known, layer_shows_its_writes, layered, lemma_applied_over, lemma_known, lemma_known_more};
#[allow(unused_imports)]
use crate::redox::records::{layer_of, BlockView, Blocks, LayerError, LoadView, Writes};

verus! {

/// The files on storage, each with the writes that it holds.
#[verifier::ext_equal]
pub struct DiskFiles {
    pub layers: Map<u64, Writes>,
    pub overlays: Map<u64, Writes>,
    /// The layers and the overlays that were synced since they were last written to.
    pub synced_layers: Set<u64>,
    pub synced_overlays: Set<u64>,
}

impl DiskFiles {
    /// The files once an operation for a disk with this overlay is done; one that makes a file makes
    /// the file `id`.
    pub open spec fn after(self, action: DiskAction, overlay: u64, id: u64) -> DiskFiles {
        match action {
            DiskAction::LinkOverlay(linked) => DiskFiles { layers: self.layers.insert(id, self.overlays[linked]), ..self },
            DiskAction::CreateOverlay => DiskFiles { overlays: self.overlays.insert(id, Seq::empty()), ..self },
            DiskAction::CreateChildOverlay => DiskFiles { overlays: self.overlays.insert(id, Seq::empty()), ..self },
            DiskAction::SyncLayer(layer) => DiskFiles { synced_layers: self.synced_layers.insert(layer), ..self },
            DiskAction::SyncOverlay => DiskFiles { synced_overlays: self.synced_overlays.insert(overlay), ..self },
            _ => self,
        }
    }

    /// The writes that the layers hold, oldest layer first.
    pub open spec fn layer_writes(self, layers: Seq<u64>) -> Seq<Writes> {
        Seq::new(layers.len(), |i: int| self.layers[layers[i]])
    }

    /// The blocks that the files of a disk hold.
    pub open spec fn blocks(self, disk: DurableView) -> Blocks {
        applied(layered(self.layer_writes(disk.layers)), self.overlays[disk.overlay])
    }

    /// Whether the files of a disk are there.
    pub open spec fn has(self, disk: DurableView) -> bool {
        &&& forall|i: int| 0 <= i < disk.layers.len() ==> self.layers.contains_key(#[trigger] disk.layers[i])
        &&& self.overlays.contains_key(disk.overlay)
    }

    /// Whether all files of `earlier` are still there and hold what they held.
    pub open spec fn keeps(self, earlier: DiskFiles) -> bool {
        &&& forall|l: u64| #[trigger] earlier.layers.contains_key(l) ==> self.layers.contains_key(l) && self.layers[l] == earlier.layers[l]
        &&& forall|o: u64| #[trigger] earlier.overlays.contains_key(o) ==> self.overlays.contains_key(o) && self.overlays[o] == earlier.overlays[o]
        &&& earlier.synced_layers.subset_of(self.synced_layers)
        &&& earlier.synced_overlays.subset_of(self.synced_overlays)
    }

    /// Whether a number is that of no file.
    pub open spec fn unused(self, id: u64) -> bool {
        !self.layers.contains_key(id) && !self.overlays.contains_key(id)
    }
}

/// A disk that is being saved or forked, and the files on storage.
pub struct Moment<T> {
    pub stage: T,
    pub disk: DurableView,
    pub files: DiskFiles,
}

proof fn lemma_same_blocks(was: DiskFiles, now: DiskFiles, disk: DurableView)
    requires
        was.has(disk),
        now.keeps(was),
    ensures
        now.has(disk),
        now.blocks(disk) == was.blocks(disk),
        now.layer_writes(disk.layers) == was.layer_writes(disk.layers),
{
    assert(now.layer_writes(disk.layers) =~= was.layer_writes(disk.layers));
}

proof fn lemma_linked_blocks(files: DiskFiles, layers: Seq<u64>, layer: u64, overlay: u64)
    requires
        files.overlays[overlay].len() == 0,
    ensures
        files.blocks(DurableView { layers: layers.push(layer), overlay }) == applied(layered(files.layer_writes(layers)), files.layers[layer]),
        files.blocks(DurableView { layers, overlay }) == layered(files.layer_writes(layers)),
{
    let writes = files.layer_writes(layers.push(layer));
    assert(writes.drop_last() =~= files.layer_writes(layers));
    assert(writes.last() == files.layers[layer]);
}

/// Whether moment `k + 1` of saving a disk follows moment `k`.
pub open spec fn saving_goes_on(run: Seq<Moment<CheckpointStage>>, ids: Seq<u64>, seal: bool, k: int) -> bool {
    let now = run[k];
    let next = run[k + 1];
    &&& (next.stage, next.disk) == checkpoint_after(now.stage, now.disk, seal, ids[k])
    &&& next.files == now.files.after(checkpoint_action(now.stage, now.disk), now.disk.overlay, ids[k])
    &&& now.files.unused(ids[k])
}

spec fn saving(first: Moment<CheckpointStage>, now: Moment<CheckpointStage>, seal: bool) -> bool {
    let synced = |i: int| now.files.synced_layers.contains(first.disk.layers[i]);
    let all_synced = (forall|i: int| 0 <= i < first.disk.layers.len() ==> #[trigger] synced(i)) && now.files.synced_overlays.contains(first.disk.overlay);
    let linked = |l: u64| now.files.layers.contains_key(l) && now.files.layers[l] == first.files.overlays[first.disk.overlay];
    let sealed = |l: Option<u64>|
        match l {
            Some(l) => seal && linked(l) && now.files.synced_layers.contains(l),
            None => !seal,
        };
    &&& now.files.keeps(first.files)
    &&& !(now.stage is Done) ==> now.disk == first.disk
    &&& match now.stage {
        CheckpointStage::Layer(n) => n < first.disk.layers.len() && forall|i: int| 0 <= i < n ==> #[trigger] synced(i),
        CheckpointStage::Overlay => forall|i: int| 0 <= i < first.disk.layers.len() ==> #[trigger] synced(i),
        CheckpointStage::Link => all_synced && seal,
        CheckpointStage::LinkedLayer(l) => all_synced && seal && linked(l),
        CheckpointStage::NewOverlay(l) => all_synced && sealed(l),
        CheckpointStage::Directory(l, o) => {
            &&& all_synced && sealed(l)
            &&& now.files.overlays.contains_key(o) && now.files.overlays[o].len() == 0
        },
        CheckpointStage::Done => {
            &&& all_synced
            &&& now.files.has(now.disk)
            &&& now.files.overlays[now.disk.overlay].len() == 0
            &&& if seal {
                &&& now.disk.layers.len() == first.disk.layers.len() + 1
                &&& now.disk.layers.drop_last() == first.disk.layers
                &&& linked(now.disk.layers.last())
                &&& now.files.synced_layers.contains(now.disk.layers.last())
            } else {
                now.disk.layers == first.disk.layers
            }
        },
    }
}

proof fn lemma_saving(first: Moment<CheckpointStage>, run: Seq<Moment<CheckpointStage>>, ids: Seq<u64>, seal: bool, k: int)
    requires
        0 <= k < run.len() - 1,
        first.disk.layers.len() <= usize::MAX,
        first.files.has(first.disk),
        saving(first, run[k], seal),
        saving_goes_on(run, ids, seal, k),
    ensures
        saving(first, run[k + 1], seal),
{
    let now = run[k];
    let next = run[k + 1];
    assert(next.files.keeps(first.files));
    match now.stage {
        CheckpointStage::Layer(n) => {
            assert(next.files.synced_layers.contains(first.disk.layers[n as int]));
            assert forall|i: int| 0 <= i < n + 1 implies next.files.synced_layers.contains(first.disk.layers[i]) by {
                if i < n {
                    let synced = |i: int| now.files.synced_layers.contains(first.disk.layers[i]);
                    assert(synced(i));
                }
            }
        },
        CheckpointStage::Directory(l, o) => {
            if l is Some {
                assert(next.disk.layers.drop_last() =~= first.disk.layers);
            }
            assert(next.files.has(next.disk)) by {
                assert forall|i: int| 0 <= i < next.disk.layers.len() implies next.files.layers.contains_key(#[trigger] next.disk.layers[i]) by {
                    if i < first.disk.layers.len() {
                        assert(next.disk.layers[i] == first.disk.layers[i]);
                    }
                }
            }
        },
        _ => {},
    }
    let synced_now = |i: int| now.files.synced_layers.contains(first.disk.layers[i]);
    let synced_next = |i: int| next.files.synced_layers.contains(first.disk.layers[i]);
    assert forall|i: int| synced_now(i) implies #[trigger] synced_next(i) by {}
}

proof fn lemma_saved(run: Seq<Moment<CheckpointStage>>, ids: Seq<u64>, seal: bool, k: int)
    requires
        0 <= k < run.len(),
        run[0].disk.layers.len() <= usize::MAX,
        run[0].files.has(run[0].disk),
        run[0].stage == layer_stage(run[0].disk, 0),
        forall|j: int| 0 <= j < run.len() - 1 ==> #[trigger] saving_goes_on(run, ids, seal, j),
    ensures
        saving(run[0], run[k], seal),
    decreases k,
{
    if k > 0 {
        lemma_saved(run, ids, seal, k - 1);
        assert(saving_goes_on(run, ids, seal, k - 1));
        lemma_saving(run[0], run, ids, seal, k - 1);
    }
}

/// Saving a disk, carried out to its end, changes none of its blocks: the files that the disk then has
/// hold the blocks that its files held before, and so do the files that were saved. The overlay that
/// takes new writes is empty. Where the old overlay held writes, it is now the newest layer; all layers
/// and the old overlay were synced.
pub proof fn checkpoint_keeps_the_blocks(run: Seq<Moment<CheckpointStage>>, ids: Seq<u64>, seal: bool)
    requires
        run.len() > 0,
        run[0].disk.layers.len() <= usize::MAX,
        run[0].files.has(run[0].disk),
        run[0].stage == layer_stage(run[0].disk, 0),
        !seal ==> run[0].files.overlays[run[0].disk.overlay].len() == 0,
        forall|k: int| 0 <= k < run.len() - 1 ==> #[trigger] saving_goes_on(run, ids, seal, k),
        run.last().stage is Done,
    ensures
        ({
            let first = run[0];
            let last = run.last();
            &&& last.files.has(last.disk)
            &&& last.files.blocks(last.disk) == first.files.blocks(first.disk)
            &&& last.files.blocks(first.disk) == first.files.blocks(first.disk)
            &&& last.files.overlays[last.disk.overlay] == Seq::<(u64, BlockView)>::empty()
            &&& if seal {
                &&& last.disk.layers.len() == first.disk.layers.len() + 1
                &&& last.disk.layers.drop_last() == first.disk.layers
                &&& last.files.layers[last.disk.layers.last()] == first.files.overlays[first.disk.overlay]
            } else {
                last.disk.layers == first.disk.layers
            }
            &&& last.files.synced_overlays.contains(first.disk.overlay)
            &&& forall|i: int| 0 <= i < last.disk.layers.len() ==> last.files.synced_layers.contains(#[trigger] last.disk.layers[i])
        }),
{
    let first = run[0];
    let last = run.last();
    lemma_saved(run, ids, seal, run.len() - 1);
    lemma_same_blocks(first.files, last.files, first.disk);
    let empty = last.files.overlays[last.disk.overlay];
    assert(empty =~= Seq::empty());
    let layers = first.disk.layers;
    let synced = |i: int| last.files.synced_layers.contains(first.disk.layers[i]);
    if seal {
        let layer = last.disk.layers.last();
        assert(last.disk.layers =~= layers.push(layer));
        lemma_linked_blocks(last.files, layers, layer, last.disk.overlay);
        assert forall|i: int| 0 <= i < last.disk.layers.len() implies last.files.synced_layers.contains(#[trigger] last.disk.layers[i]) by {
            if i < layers.len() {
                assert(synced(i));
                assert(last.disk.layers[i] == layers[i]);
            }
        }
    } else {
        lemma_linked_blocks(last.files, layers, 0, last.disk.overlay);
        lemma_linked_blocks(first.files, layers, 0, first.disk.overlay);
        assert forall|i: int| 0 <= i < last.disk.layers.len() implies last.files.synced_layers.contains(#[trigger] last.disk.layers[i]) by {
            assert(synced(i));
        }
    }
}

/// How many operations saving a disk still takes, at most.
pub open spec fn saving_rest(stage: CheckpointStage, layers: nat) -> int {
    match stage {
        CheckpointStage::Layer(n) => layers - n + 5,
        CheckpointStage::Overlay => 5,
        CheckpointStage::Link => 4,
        CheckpointStage::LinkedLayer(_) => 3,
        CheckpointStage::NewOverlay(_) => 2,
        CheckpointStage::Directory(_, _) => 1,
        CheckpointStage::Done => 0,
    }
}

/// Saving a disk comes to an end, with a sync of the directory as the last operation.
pub proof fn checkpoint_ends(stage: CheckpointStage, disk: DurableView, seal: bool, id: u64)
    requires
        stage matches CheckpointStage::Layer(n) ==> n < disk.layers.len(),
        disk.layers.len() <= usize::MAX,
        !(stage is Done),
    ensures
        ({
            let next = checkpoint_after(stage, disk, seal, id).0;
            &&& 0 <= saving_rest(next, disk.layers.len()) < saving_rest(stage, disk.layers.len())
            &&& next is Done ==> checkpoint_action(stage, disk) is SyncDirectory
            &&& !(checkpoint_action(stage, disk) is Finished)
        }),
{
}

/// Whether moment `k + 1` of a fork follows moment `k`.
pub open spec fn forking_goes_on(run: Seq<Moment<ForkStage>>, ids: Seq<u64>, k: int) -> bool {
    let now = run[k];
    let next = run[k + 1];
    &&& (next.stage, next.disk) == fork_after(now.stage, now.disk, ids[k])
    &&& next.files == now.files.after(fork_action(now.stage, now.disk), now.disk.overlay, ids[k])
    &&& now.files.unused(ids[k])
}

/// A fork of a disk, carried out to its end, shows source and child the blocks that the source had.
/// Each has an overlay of its own, which is empty; so neither sees what the other writes.
pub proof fn fork_shows_both_the_blocks(run: Seq<Moment<ForkStage>>, ids: Seq<u64>, seal: bool, more: Writes)
    requires
        run.len() > 0,
        run[0].files.has(run[0].disk),
        run[0].stage == (if seal {
            ForkStage::Link
        } else {
            ForkStage::Child
        }),
        !seal ==> run[0].files.overlays[run[0].disk.overlay].len() == 0,
        forall|k: int| 0 <= k < run.len() - 1 ==> #[trigger] forking_goes_on(run, ids, k),
        run.last().stage is Done,
        forall|k: int| 0 <= k < run.len() - 1 ==> !((#[trigger] run[k]).stage is Done),
    ensures
        ({
            let before = run[0].files.blocks(run[0].disk);
            let last = run.last();
            let child = DurableView { layers: last.disk.layers, overlay: last.stage->Done_0 };
            let source_writes = DiskFiles { overlays: last.files.overlays.insert(last.disk.overlay, more), ..last.files };
            let child_writes = DiskFiles { overlays: last.files.overlays.insert(child.overlay, more), ..last.files };
            &&& last.files.has(last.disk)
            &&& last.files.has(child)
            &&& last.disk.overlay != child.overlay
            &&& last.files.blocks(last.disk) == before
            &&& last.files.blocks(child) == before
            &&& last.files.overlays[last.disk.overlay].len() == 0
            &&& last.files.overlays[child.overlay].len() == 0
            &&& source_writes.blocks(child) == before
            &&& child_writes.blocks(last.disk) == before
        }),
{
    let first = run[0];
    let last = run.last();
    let layers = first.disk.layers;
    if seal {
        assert(run.len() > 1) by {
            if run.len() == 1 {
                assert(run.last() == run[0]);
            }
        }
        assert(forking_goes_on(run, ids, 0));
        assert(run[1].stage is Overlay);
        assert(run.len() > 2) by {
            if run.len() == 2 {
                assert(run.last() == run[1]);
            }
        }
        assert(forking_goes_on(run, ids, 1));
        assert(run[2].stage is Child);
        assert(run.len() > 3) by {
            if run.len() == 3 {
                assert(run.last() == run[2]);
            }
        }
        assert(forking_goes_on(run, ids, 2));
        assert(run[3].stage is Done);
        assert(run.len() == 4) by {
            if run.len() > 4 {
                assert(!(run[3].stage is Done));
            }
        }
        assert(last == run[3]);
        assert(last.disk.layers == layers.push(ids[0]));
        assert(last.files.layer_writes(layers) =~= first.files.layer_writes(layers));
        assert forall|i: int| 0 <= i < last.disk.layers.len() implies last.files.layers.contains_key(#[trigger] last.disk.layers[i]) by {
            if i < layers.len() {
                assert(last.disk.layers[i] == layers[i]);
            }
        }
        lemma_linked_blocks(last.files, layers, ids[0], last.disk.overlay);
        lemma_linked_blocks(last.files, layers, ids[0], last.stage->Done_0);
    } else {
        assert(run.len() > 1) by {
            if run.len() == 1 {
                assert(run.last() == run[0]);
            }
        }
        assert(forking_goes_on(run, ids, 0));
        assert(run[1].stage is Done);
        assert(run.len() == 2) by {
            if run.len() > 2 {
                assert(!(run[1].stage is Done));
            }
        }
        assert(last == run[1]);
        assert(last.files.layer_writes(layers) =~= first.files.layer_writes(layers));
        lemma_linked_blocks(last.files, layers, 0, last.disk.overlay);
        lemma_linked_blocks(first.files, layers, 0, last.disk.overlay);
        lemma_linked_blocks(last.files, layers, 0, last.stage->Done_0);
    }
    let child = DurableView { layers: last.disk.layers, overlay: last.stage->Done_0 };
    let source_writes = DiskFiles { overlays: last.files.overlays.insert(last.disk.overlay, more), ..last.files };
    let child_writes = DiskFiles { overlays: last.files.overlays.insert(child.overlay, more), ..last.files };
    assert(source_writes.layer_writes(child.layers) =~= last.files.layer_writes(child.layers));
    assert(child_writes.layer_writes(child.layers) =~= last.files.layer_writes(child.layers));
}

/// How many operations a fork of a disk still takes.
pub open spec fn forking_rest(stage: ForkStage) -> int {
    match stage {
        ForkStage::Link => 3,
        ForkStage::Overlay => 2,
        ForkStage::Child => 1,
        ForkStage::Done(_) => 0,
    }
}

/// A fork of a disk comes to an end.
pub proof fn fork_ends(stage: ForkStage, disk: DurableView, id: u64)
    ensures
        !(stage is Done) ==> forking_rest(fork_after(stage, disk, id).0) < forking_rest(stage),
        fork_action(stage, disk) is Finished <==> stage is Done,
        stage is Done ==> fork_after(stage, disk, id) == (stage, disk),
{
}

/// A disk that is being read back, what its lineage shares, and the files on storage.
pub struct Reading {
    pub view: RestoreView,
    pub shared: LoadedView,
    pub files: DiskFiles,
}

/// Whether moment `k + 1` of reading a disk back follows moment `k`: the file that was to be read was
/// taken in, or another operation was done.
pub open spec fn reading_goes_on(run: Seq<Reading>, ids: Seq<u64>, k: int) -> bool {
    let now = run[k];
    let next = run[k + 1];
    match now.view.action() {
        DiskAction::ReadLayer(layer) => {
            &&& file_taken_in(now.view, next.view, now.shared, next.shared, layer_of(now.files.layers[layer]), Ok(()))
            &&& next.files == now.files
        },
        DiskAction::ReadOverlay(overlay) => {
            &&& file_taken_in(now.view, next.view, now.shared, next.shared, layer_of(now.files.overlays[overlay]), Ok(()))
            &&& next.files == now.files
        },
        action => {
            &&& next.view == now.view.after(ids[k])
            &&& next.shared == now.shared
            &&& next.files == now.files.after(action, now.view.saved.overlay, ids[k])
            &&& now.files.unused(ids[k])
        },
    }
}

/// The disk that is read back.
pub open spec fn saved_disk(view: RestoreView) -> DurableView {
    DurableView { layers: view.saved.layers, overlay: view.saved.overlay }
}

spec fn reading(first: Reading, now: Reading) -> bool {
    let layers = first.files.layer_writes(first.view.saved.layers);
    let overlay = first.files.overlays[first.view.saved.overlay];
    let linked = |l: u64| now.files.layers.contains_key(l) && now.files.layers[l] == overlay;
    let sealed = |l: Option<u64>|
        match l {
            Some(l) => linked(l),
            None => overlay.len() == 0,
        };
    let loaded = now.view.base == layered(layers) && now.view.snapshot == applied(Map::empty(), overlay);
    let fresh = |o: u64| now.files.overlays.contains_key(o) && now.files.overlays[o].len() == 0;
    &&& now.files.keeps(first.files)
    &&& now.view.saved == first.view.saved
    &&& match now.view.stage {
        RestoreStage::Layer(n) => {
            &&& n < layers.len()
            &&& now.view.base == layered(layers.take(n as int))
            &&& now.shared.objects == known(first.shared.objects, all_writes(layers.take(n as int)))
            &&& now.view.snapshot == Map::<u64, BlockView>::empty()
        },
        RestoreStage::Overlay => {
            &&& now.view.base == layered(layers)
            &&& now.shared.objects == known(first.shared.objects, all_writes(layers))
            &&& now.view.snapshot == Map::<u64, BlockView>::empty()
        },
        RestoreStage::Link => loaded,
        RestoreStage::LinkedLayer(l) => loaded && linked(l),
        RestoreStage::NewOverlay(l) => loaded && sealed(l),
        RestoreStage::Directory(l, o) => loaded && sealed(l) && fresh(o),
        RestoreStage::Done(l, o) => loaded && sealed(l) && fresh(o),
    }
}

proof fn lemma_agrees_more(objects: Blocks, first: Writes, then: Writes)
    requires
        agrees(objects, first + then),
    ensures
        agrees(objects, first),
        agrees(known(objects, first), then),
{
    let all = first + then;
    assert forall|i: int| 0 <= i < first.len() implies (#[trigger] first[i]) == all[i] by {}
    assert(agrees(objects, first));
    lemma_known(objects, first);
    let before = known(objects, first);
    assert forall|i: int| 0 <= i < then.len() implies (#[trigger] then[i]) == all[first.len() + i] by {}
    assert forall|i: int| 0 <= i < then.len() && before.contains_key((#[trigger] then[i]).1.id) implies before[then[i].1.id] == then[i].1 by {
        let id = then[i].1.id;
        assert(then[i] == all[first.len() + i]);
        if !objects.contains_key(id) {
            let j = choose|j: int| 0 <= j < first.len() && (#[trigger] first[j]).1.id == id;
            assert(first[j] == all[j]);
        }
    }
}

proof fn lemma_all_writes_prefix(layers: Seq<Writes>, n: int)
    requires
        0 <= n <= layers.len(),
    ensures
        exists|rest: Writes| all_writes(layers) == #[trigger] (all_writes(layers.take(n)) + rest),
    decreases layers.len() - n,
{
    if n == layers.len() {
        assert(layers.take(n) =~= layers);
        assert(all_writes(layers) =~= all_writes(layers.take(n)) + Seq::<(u64, BlockView)>::empty());
    } else {
        lemma_all_writes_prefix(layers, n + 1);
        let rest = choose|rest: Writes| all_writes(layers) == #[trigger] (all_writes(layers.take(n + 1)) + rest);
        assert(layers.take(n + 1).drop_last() =~= layers.take(n));
        assert(all_writes(layers.take(n + 1)) == all_writes(layers.take(n)) + layers[n]);
        assert(all_writes(layers) =~= all_writes(layers.take(n)) + (layers[n] + rest));
    }
}

proof fn lemma_reading(first: Reading, run: Seq<Reading>, ids: Seq<u64>, k: int)
    requires
        0 <= k < run.len() - 1,
        first.files.has(saved_disk(first.view)),
        first.view.saved.layers.len() <= usize::MAX,
        agrees(
            first.shared.objects,
            all_writes(first.files.layer_writes(first.view.saved.layers).push(first.files.overlays[first.view.saved.overlay])),
        ),
        reading(first, run[k]),
        reading_goes_on(run, ids, k),
    ensures
        reading(first, run[k + 1]),
{
    let now = run[k];
    let next = run[k + 1];
    let layers = first.files.layer_writes(first.view.saved.layers);
    let overlay = first.files.overlays[first.view.saved.overlay];
    let pushed = layers.push(overlay);
    match now.view.stage {
        RestoreStage::Layer(n) => {
            let n = n as int;
            let number = now.view.saved.layers[n];
            assert(first.files.layers.contains_key(saved_disk(first.view).layers[n]));
            assert(now.files.layers[number] == layers[n]);
            lemma_all_writes_prefix(pushed, n + 1);
            assert(pushed.take(n + 1).drop_last() =~= layers.take(n));
            assert(pushed.take(n + 1).last() == layers[n]);
            let rest = choose|rest: Writes| all_writes(pushed) == #[trigger] (all_writes(pushed.take(n + 1)) + rest);
            lemma_agrees_more(first.shared.objects, all_writes(pushed.take(n + 1)), rest);
            lemma_agrees_more(first.shared.objects, all_writes(layers.take(n)), layers[n]);
            lemma_known_more(first.shared.objects, all_writes(layers.take(n)), layers[n]);
            let was = LoadView { objects: now.shared.objects, visible: now.view.base, next_block: now.shared.next_block };
            layer_shows_its_writes(was, layers[n]);
            assert(layers.take(n + 1).drop_last() =~= layers.take(n));
            assert(layers.take(n + 1).last() == layers[n]);
            if n + 1 == layers.len() {
                assert(layers.take(n + 1) =~= layers);
            }
        },
        RestoreStage::Overlay => {
            assert(first.files.overlays.contains_key(first.view.saved.overlay));
            assert(pushed.drop_last() =~= layers);
            assert(pushed.last() == overlay);
            lemma_agrees_more(first.shared.objects, all_writes(layers), overlay);
            let was = LoadView { objects: now.shared.objects, visible: now.view.snapshot, next_block: now.shared.next_block };
            layer_shows_its_writes(was, overlay);
        },
        _ => {},
    }
}

proof fn lemma_read(run: Seq<Reading>, ids: Seq<u64>, k: int)
    requires
        0 <= k < run.len(),
        run[0].files.has(saved_disk(run[0].view)),
        run[0].view.saved.layers.len() <= usize::MAX,
        agrees(
            run[0].shared.objects,
            all_writes(run[0].files.layer_writes(run[0].view.saved.layers).push(run[0].files.overlays[run[0].view.saved.overlay])),
        ),
        run[0].view.stage == run[0].view.reading(0),
        run[0].view.base == Map::<u64, BlockView>::empty(),
        run[0].view.snapshot == Map::<u64, BlockView>::empty(),
        forall|j: int| 0 <= j < run.len() - 1 ==> #[trigger] reading_goes_on(run, ids, j),
    ensures
        reading(run[0], run[k]),
    decreases k,
{
    if k > 0 {
        lemma_read(run, ids, k - 1);
        assert(reading_goes_on(run, ids, k - 1));
        lemma_reading(run[0], run, ids, k - 1);
    } else {
        let layers = run[0].files.layer_writes(run[0].view.saved.layers);
        assert(layers.take(0) =~= Seq::<Writes>::empty());
        if layers.len() == 0 {
            assert(layers =~= Seq::<Writes>::empty());
        }
    }
}

/// A disk that is read back, to the end, has the blocks that its saved files hold, and the files that it
/// then has hold just these. The overlay that takes its new writes is empty, and the saved files are as
/// they were.
pub proof fn restored_disk_has_the_saved_blocks(run: Seq<Reading>, ids: Seq<u64>)
    requires
        run.len() > 0,
        run[0].files.has(saved_disk(run[0].view)),
        run[0].view.saved.layers.len() <= usize::MAX,
        agrees(
            run[0].shared.objects,
            all_writes(run[0].files.layer_writes(run[0].view.saved.layers).push(run[0].files.overlays[run[0].view.saved.overlay])),
        ),
        run[0].view.stage == run[0].view.reading(0),
        run[0].view.base == Map::<u64, BlockView>::empty(),
        run[0].view.snapshot == Map::<u64, BlockView>::empty(),
        forall|k: int| 0 <= k < run.len() - 1 ==> #[trigger] reading_goes_on(run, ids, k),
        run.last().view.stage is Done,
    ensures
        ({
            let saved = run[0].files.blocks(saved_disk(run[0].view));
            let last = run.last();
            let disk = last.view.files(last.view.stage->Done_0, last.view.stage->Done_1);
            &&& last.view.blocks() == saved
            &&& last.files.has(disk)
            &&& last.files.blocks(disk) == saved
            &&& last.files.blocks(saved_disk(run[0].view)) == saved
            &&& last.files.overlays[disk.overlay] == Seq::<(u64, BlockView)>::empty()
        }),
{
    let first = run[0];
    let last = run.last();
    lemma_read(run, ids, run.len() - 1);
    let disk = last.view.files(last.view.stage->Done_0, last.view.stage->Done_1);
    let layers = first.view.saved.layers;
    let overlay = first.files.overlays[first.view.saved.overlay];
    lemma_same_blocks(first.files, last.files, saved_disk(first.view));
    lemma_applied_over(layered(first.files.layer_writes(layers)), overlay);
    assert(last.files.overlays[disk.overlay] =~= Seq::empty());
    match last.view.stage->Done_0 {
        Some(layer) => {
            lemma_linked_blocks(last.files, layers, layer, disk.overlay);
            assert forall|i: int| 0 <= i < disk.layers.len() implies last.files.layers.contains_key(#[trigger] disk.layers[i]) by {
                if i < layers.len() {
                    assert(disk.layers[i] == layers[i]);
                    assert(first.files.layers.contains_key(saved_disk(first.view).layers[i]));
                }
            }
        },
        None => {
            lemma_linked_blocks(last.files, layers, 0, disk.overlay);
            assert(overlay =~= Seq::empty());
            assert forall|i: int| 0 <= i < disk.layers.len() implies last.files.layers.contains_key(#[trigger] disk.layers[i]) by {
                assert(first.files.layers.contains_key(saved_disk(first.view).layers[i]));
            }
        },
    }
}

/// How many operations reading a disk back still takes, at most.
pub open spec fn reading_rest(stage: RestoreStage, layers: nat) -> int {
    match stage {
        RestoreStage::Layer(n) => layers - n + 5,
        RestoreStage::Overlay => 5,
        RestoreStage::Link => 4,
        RestoreStage::LinkedLayer(_) => 3,
        RestoreStage::NewOverlay(_) => 2,
        RestoreStage::Directory(_, _) => 1,
        RestoreStage::Done(_, _) => 0,
    }
}

/// Reading a disk back comes to an end.
pub proof fn reading_back_ends(run: Seq<Reading>, ids: Seq<u64>, k: int)
    requires
        0 <= k < run.len() - 1,
        run[k].view.wf(),
        run[k].view.saved.layers.len() <= usize::MAX,
        reading_goes_on(run, ids, k),
        !(run[k].view.stage is Done),
    ensures
        ({
            let layers = run[k].view.saved.layers.len();
            0 <= reading_rest(run[k + 1].view.stage, layers) < reading_rest(run[k].view.stage, layers)
        }),
{
}

/// Once a disk is read back, no new file gets a number that one of its files has, and no new block a
/// number that one of its blocks has.
pub proof fn new_numbers_are_unused(was: u64, ids: Seq<u64>, now: u64, before: LoadView, layer: Seq<u8>, count: int, i: int)
    requires
        reserved(was, ids, now),
        0 <= count,
        forall|k: u64| #[trigger] before.objects.contains_key(k) ==> k < before.next_block || k == u64::MAX,
    ensures
        0 <= i < ids.len() && ids[i] < u64::MAX ==> ids[i] < now,
        was <= now,
        forall|k: u64| #[trigger] before.loaded(layer, count).objects.contains_key(k) ==> k < before.loaded(layer, count).next_block || k == u64::MAX,
        before.next_block <= before.loaded(layer, count).next_block,
    decreases count,
{
    if count > 0 {
        new_numbers_are_unused(was, ids, now, before, layer, count - 1, i);
    }
    if 0 <= i < ids.len() {
        assert(crate::redox::durable::above(ids[i]) <= now);
    }
}

/// Once a disk has been read back, no file that it names can be made again: the next number is above all
/// of theirs. Until then, and where a file cannot be read, the next number stays.
pub proof fn restored_files_are_not_made_again(
    v: RestoreView,
    w: RestoreView,
    was: LoadedView,
    now: LoadedView,
    file: Seq<u8>,
    r: Result<(), LayerError>,
    i: int,
)
    requires
        file_taken_in(v, w, was, now, file, r),
    ensures
        was.next_durable <= now.next_durable,
        v.stage is Overlay && r is Ok ==> {
            &&& v.saved.overlay < u64::MAX ==> v.saved.overlay < now.next_durable
            &&& 0 <= i < v.saved.layers.len() && v.saved.layers[i] < u64::MAX ==> v.saved.layers[i] < now.next_durable
        },
        v.stage is Layer || r is Err ==> now.next_durable == was.next_durable,
        w.saved == v.saved,
{
    let ids = v.saved.layers.push(v.saved.overlay);
    if v.stage is Overlay && r is Ok {
        assert(ids[v.saved.layers.len() as int] == v.saved.overlay);
        if 0 <= i < v.saved.layers.len() {
            assert(ids[i] == v.saved.layers[i]);
        }
    }
}

} // verus!
