//! What a durable disk writes to its files is what is read back from them.

use vstd::prelude::*;

#[allow(unused_imports)]
use crate::redox::disk::{chunk_count, DiskView};
#[allow(unused_imports)]
use crate::redox::records::{layer_of, layers_read_back, BlockView, Blocks, LoadView, Writes};

verus! {

/// The blocks once some writes are done.
pub open spec fn applied(blocks: Blocks, writes: Writes) -> Blocks
    decreases writes.len(),
{
    if writes.len() == 0 {
        blocks
    } else {
        applied(blocks, writes.drop_last()).insert(writes.last().0, writes.last().1)
    }
}

/// The blocks that layers hold, oldest layer first.
pub open spec fn layered(layers: Seq<Writes>) -> Blocks
    decreases layers.len(),
{
    if layers.len() == 0 {
        Map::empty()
    } else {
        applied(layered(layers.drop_last()), layers.last())
    }
}

/// Whether the files of a disk, its layers and its overlay, hold what the disk sees.
pub open spec fn kept(disk: DiskView, layers: Seq<Writes>, overlay: Writes) -> bool {
    disk.blocks == applied(layered(layers), overlay)
}

/// Whether every identity stands for one whole block, among the known blocks and the writes.
pub open spec fn agrees(objects: Blocks, writes: Writes) -> bool {
    &&& forall|i: int| 0 <= i < writes.len() ==> (#[trigger] writes[i]).1.bytes.len() == 4096
    &&& forall|i: int| 0 <= i < writes.len() && objects.contains_key((#[trigger] writes[i]).1.id) ==> objects[writes[i].1.id] == writes[i].1
    &&& forall|i: int, j: int|
        0 <= i < writes.len() && 0 <= j < writes.len() && (#[trigger] writes[i]).1.id == (#[trigger] writes[j]).1.id ==> writes[i].1 == writes[j].1
}

/// The known blocks once a layer with these writes is read.
pub open spec fn known(objects: Blocks, writes: Writes) -> Blocks
    decreases writes.len(),
{
    if writes.len() == 0 {
        objects
    } else {
        let before = known(objects, writes.drop_last());
        let block = writes.last().1;
        if before.contains_key(block.id) { before } else { before.insert(block.id, block) }
    }
}

pub proof fn lemma_known(objects: Blocks, writes: Writes)
    requires
        agrees(objects, writes),
    ensures
        forall|k: u64| #[trigger] objects.contains_key(k) ==> known(objects, writes).contains_key(k) && known(objects, writes)[k] == objects[k],
        forall|i: int| 0 <= i < writes.len() ==> known(objects, writes).contains_key((#[trigger] writes[i]).1.id) && known(objects, writes)[writes[i].1.id] == writes[i].1,
        forall|k: u64| #[trigger] known(objects, writes).contains_key(k) ==> objects.contains_key(k) || exists|i: int| 0 <= i < writes.len() && (#[trigger] writes[i]).1.id == k,
    decreases writes.len(),
{
    if writes.len() > 0 {
        let rest = writes.drop_last();
        assert(agrees(objects, rest)) by {
            assert forall|i: int| 0 <= i < rest.len() implies (#[trigger] rest[i]) == writes[i] by {
            }
        }
        lemma_known(objects, rest);
        let before = known(objects, rest);
        let last = writes.last();
        assert(last == writes[writes.len() - 1]);
        if before.contains_key(last.1.id) {
            if !objects.contains_key(last.1.id) {
                let i = choose|i: int| 0 <= i < rest.len() && (#[trigger] rest[i]).1.id == last.1.id;
                assert(rest[i] == writes[i]);
                assert(before[rest[i].1.id] == rest[i].1);
            }
        }
        assert(known(objects, writes)[last.1.id] == last.1);
        assert forall|i: int| 0 <= i < writes.len() implies known(objects, writes).contains_key((#[trigger] writes[i]).1.id) && known(
            objects,
            writes,
        )[writes[i].1.id] == writes[i].1 by {
            if i < rest.len() {
                assert(rest[i] == writes[i]);
            }
        }
        assert forall|k: u64| #[trigger] known(objects, writes).contains_key(k) implies objects.contains_key(k) || exists|i: int|
            0 <= i < writes.len() && (#[trigger] writes[i]).1.id == k by {
            if k == last.1.id {
                assert(writes[writes.len() - 1].1.id == k);
            } else {
                assert(before.contains_key(k));
                if !objects.contains_key(k) {
                    let i = choose|i: int| 0 <= i < rest.len() && (#[trigger] rest[i]).1.id == k;
                    assert(writes[i] == rest[i]);
                }
            }
        }
    }
}

/// A layer that holds the records of some writes can be read, and what it shows is what the writes
/// did.
pub proof fn layer_shows_its_writes(was: LoadView, writes: Writes)
    requires
        agrees(was.objects, writes),
    ensures
        layer_of(writes).len() == 4112 * writes.len(),
        forall|i: int| 0 <= i < writes.len() ==> !#[trigger] was.conflict(layer_of(writes), i),
        was.loaded(layer_of(writes), writes.len() as int).visible == applied(was.visible, writes),
        was.loaded(layer_of(writes), writes.len() as int).objects == known(was.objects, writes),
{
    let layer = layer_of(writes);
    assert(layer.len() == 4112 * writes.len()) by {
        if writes.len() > 0 {
            layers_read_back(writes, 0);
        }
    }
    lemma_loaded(was, writes, writes.len() as int);
    assert(writes.take(writes.len() as int) =~= writes);
}

proof fn lemma_loaded(was: LoadView, writes: Writes, n: int)
    requires
        0 <= n <= writes.len(),
        agrees(was.objects, writes),
    ensures
        was.loaded(layer_of(writes), n).visible == applied(was.visible, writes.take(n)),
        was.loaded(layer_of(writes), n).objects == known(was.objects, writes.take(n)),
        forall|i: int| 0 <= i < n ==> !#[trigger] was.conflict(layer_of(writes), i),
    decreases n,
{
    let layer = layer_of(writes);
    if n == 0 {
        assert(writes.take(0) =~= Seq::<(u64, BlockView)>::empty());
    } else {
        lemma_loaded(was, writes, n - 1);
        layers_read_back(writes, n - 1);
        let rest = writes.take(n - 1);
        assert(writes.take(n).drop_last() =~= rest);
        assert(writes.take(n).last() == writes[n - 1]);
        let before = was.loaded(layer, n - 1);
        let block = writes[n - 1].1;
        assert(agrees(was.objects, rest)) by {
            assert forall|i: int| 0 <= i < rest.len() implies (#[trigger] rest[i]) == writes[i] by {
            }
        }
        lemma_known(was.objects, rest);
        if before.objects.contains_key(block.id) {
            if !was.objects.contains_key(block.id) {
                let i = choose|i: int| 0 <= i < rest.len() && (#[trigger] rest[i]).1.id == block.id;
                assert(rest[i] == writes[i]);
            }
            assert(before.objects[block.id] == block);
        }
        assert(!was.conflict(layer, n - 1));
    }
}

/// What a write changes is what its records, which go to the overlay, say.
pub proof fn writes_stay_kept(v: DiskView, layers: Seq<Writes>, overlay: Writes, block: u64, buffer: Seq<u8>, next: u64)
    requires
        kept(v, layers, overlay),
    ensures
        ({
            let total = chunk_count(buffer.len() as int);
            let done = writes_of(v, block, buffer, next, total);
            &&& kept(v.written(block, buffer, next, total), layers, overlay + done)
            &&& layer_of(overlay + done) == layer_of(overlay) + layer_of(done)
        }),
{
    let total = chunk_count(buffer.len() as int);
    lemma_writes_applied(v, block, buffer, next, total);
    let done = writes_of(v, block, buffer, next, total);
    lemma_applied_more(layered(layers), overlay, done);
    lemma_layer_more(overlay, done);
}

/// The writes that the first `count` chunks of a buffer come to.
pub open spec fn writes_of(v: DiskView, block: u64, buffer: Seq<u8>, next: u64, count: int) -> Writes {
    Seq::new(
        count as nat,
        |i: int|
            (
                (block + i) as u64,
                v.written(block, buffer, next, i).chunk_block((block + i) as u64, buffer, i, (next + i) as u64),
            ),
    )
}

proof fn lemma_writes_applied(v: DiskView, block: u64, buffer: Seq<u8>, next: u64, count: int)
    requires
        count >= 0,
    ensures
        v.written(block, buffer, next, count).blocks == applied(v.blocks, writes_of(v, block, buffer, next, count)),
    decreases count,
{
    let done = writes_of(v, block, buffer, next, count);
    if count > 0 {
        lemma_writes_applied(v, block, buffer, next, count - 1);
        assert(done.drop_last() =~= writes_of(v, block, buffer, next, count - 1));
    }
}

proof fn lemma_applied_more(blocks: Blocks, first: Writes, then: Writes)
    ensures
        applied(blocks, first + then) == applied(applied(blocks, first), then),
    decreases then.len(),
{
    if then.len() == 0 {
        assert(first + then =~= first);
    } else {
        assert((first + then).drop_last() =~= first + then.drop_last());
        lemma_applied_more(blocks, first, then.drop_last());
    }
}

proof fn lemma_layer_more(first: Writes, then: Writes)
    ensures
        layer_of(first + then) == layer_of(first) + layer_of(then),
    decreases then.len(),
{
    if then.len() == 0 {
        assert(first + then =~= first);
        assert(layer_of(first) + layer_of(then) =~= layer_of(first));
    } else {
        assert((first + then).drop_last() =~= first + then.drop_last());
        lemma_layer_more(first, then.drop_last());
        assert(layer_of(first + then) =~= layer_of(first) + layer_of(then));
    }
}

/// Sealing the overlay as a layer, under a new and empty overlay, keeps what is kept.
pub proof fn sealing_stays_kept(v: DiskView, layers: Seq<Writes>, overlay: Writes)
    requires
        kept(v, layers, overlay),
    ensures
        kept(v.sealed(), layers.push(overlay), Seq::empty()),
{
    assert(layers.push(overlay).drop_last() =~= layers);
}

/// All writes of the layers, oldest first.
pub open spec fn all_writes(layers: Seq<Writes>) -> Writes
    decreases layers.len(),
{
    if layers.len() == 0 {
        Seq::empty()
    } else {
        all_writes(layers.drop_last()) + layers.last()
    }
}

/// What is found once the layers of a disk are read, oldest first.
pub open spec fn layers_loaded(was: LoadView, layers: Seq<Writes>) -> LoadView
    decreases layers.len(),
{
    if layers.len() == 0 {
        was
    } else {
        layers_loaded(was, layers.drop_last()).loaded(layer_of(layers.last()), layers.last().len() as int)
    }
}

proof fn lemma_layers_loaded(was: LoadView, layers: Seq<Writes>)
    requires
        was.visible == Map::<u64, BlockView>::empty(),
        agrees(was.objects, all_writes(layers)),
    ensures
        layers_loaded(was, layers).visible == layered(layers),
        layers_loaded(was, layers).objects == known(was.objects, all_writes(layers)),
        forall|n: int, i: int|
            0 <= n < layers.len() && 0 <= i < layers[n].len() ==> !#[trigger] layers_loaded(was, layers.take(n)).conflict(
                layer_of(layers[n]),
                i,
            ),
    decreases layers.len(),
{
    if layers.len() > 0 {
        let rest = layers.drop_last();
        let last = layers.last();
        let all = all_writes(layers);
        let earlier = all_writes(rest);
        assert(agrees(was.objects, earlier)) by {
            assert forall|i: int| 0 <= i < earlier.len() implies (#[trigger] earlier[i]) == all[i] by {
            }
        }
        lemma_layers_loaded(was, rest);
        lemma_known(was.objects, earlier);
        let before = layers_loaded(was, rest);
        assert(agrees(before.objects, last)) by {
            assert forall|i: int| 0 <= i < last.len() implies (#[trigger] last[i]) == all[earlier.len() + i] by {
            }
            assert forall|i: int| 0 <= i < last.len() && before.objects.contains_key((#[trigger] last[i]).1.id) implies before.objects[last[i].1.id]
                == last[i].1 by {
                let id = last[i].1.id;
                if !was.objects.contains_key(id) {
                    let j = choose|j: int| 0 <= j < earlier.len() && (#[trigger] earlier[j]).1.id == id;
                    assert(earlier[j] == all[j]);
                    assert(last[i] == all[earlier.len() + i]);
                } else {
                    assert(last[i] == all[earlier.len() + i]);
                }
            }
        }
        layer_shows_its_writes(before, last);
        lemma_known_more(was.objects, earlier, last);
        assert forall|n: int, i: int| 0 <= n < layers.len() && 0 <= i < layers[n].len() implies !#[trigger] layers_loaded(
            was,
            layers.take(n),
        ).conflict(layer_of(layers[n]), i) by {
            if n < rest.len() {
                assert(layers.take(n) =~= rest.take(n));
                assert(layers[n] == rest[n]);
            } else {
                assert(layers.take(n) =~= rest);
            }
        }
    }
}

pub proof fn lemma_known_more(objects: Blocks, first: Writes, then: Writes)
    ensures
        known(objects, first + then) == known(known(objects, first), then),
    decreases then.len(),
{
    if then.len() == 0 {
        assert(first + then =~= first);
    } else {
        assert((first + then).drop_last() =~= first + then.drop_last());
        lemma_known_more(objects, first, then.drop_last());
    }
}

pub proof fn lemma_applied_over(base: Blocks, writes: Writes)
    ensures
        applied(base, writes) == base.union_prefer_right(applied(Map::empty(), writes)),
    decreases writes.len(),
{
    if writes.len() == 0 {
        assert(base.union_prefer_right(Map::empty()) =~= base);
    } else {
        lemma_applied_over(base, writes.drop_last());
        assert(applied(base, writes) =~= base.union_prefer_right(applied(Map::empty(), writes)));
    }
}

/// A disk that its files keep is read back from them: no layer and no overlay is refused, and the
/// blocks of the overlay over those of the layers are those that the disk saw.
pub proof fn kept_disk_reads_back(v: DiskView, layers: Seq<Writes>, overlay: Writes, was: LoadView)
    requires
        kept(v, layers, overlay),
        was.visible == Map::<u64, BlockView>::empty(),
        agrees(was.objects, all_writes(layers.push(overlay))),
    ensures
        forall|n: int, i: int|
            0 <= n < layers.len() && 0 <= i < layers[n].len() ==> !#[trigger] layers_loaded(was, layers.take(n)).conflict(
                layer_of(layers[n]),
                i,
            ),
        ({
            let base = layers_loaded(was, layers);
            let under = LoadView { visible: Map::empty(), ..base };
            let snapshot = under.loaded(layer_of(overlay), overlay.len() as int);
            &&& forall|i: int| 0 <= i < overlay.len() ==> !#[trigger] under.conflict(layer_of(overlay), i)
            &&& base.visible.union_prefer_right(snapshot.visible) == v.blocks
        }),
{
    let pushed = layers.push(overlay);
    assert(pushed.drop_last() =~= layers);
    let all = all_writes(pushed);
    let earlier = all_writes(layers);
    assert(agrees(was.objects, earlier)) by {
        assert forall|i: int| 0 <= i < earlier.len() implies (#[trigger] earlier[i]) == all[i] by {
        }
    }
    lemma_layers_loaded(was, layers);
    lemma_known(was.objects, earlier);
    let base = layers_loaded(was, layers);
    let under = LoadView { visible: Map::empty(), ..base };
    assert(agrees(under.objects, overlay)) by {
        assert forall|i: int| 0 <= i < overlay.len() implies (#[trigger] overlay[i]) == all[earlier.len() + i] by {
        }
        assert forall|i: int| 0 <= i < overlay.len() && under.objects.contains_key((#[trigger] overlay[i]).1.id) implies under.objects[overlay[i].1.id]
            == overlay[i].1 by {
            let id = overlay[i].1.id;
            assert(overlay[i] == all[earlier.len() + i]);
            if !was.objects.contains_key(id) {
                let j = choose|j: int| 0 <= j < earlier.len() && (#[trigger] earlier[j]).1.id == id;
                assert(earlier[j] == all[j]);
            }
        }
    }
    layer_shows_its_writes(under, overlay);
    lemma_applied_over(layered(layers), overlay);
}

/// Blocks that are written under new identities agree with all that were written before.
pub proof fn new_identities_agree(objects: Blocks, before: Writes, v: DiskView, block: u64, buffer: Seq<u8>, next: u64)
    requires
        v.wf(),
        agrees(objects, before),
        forall|k: u64| #[trigger] objects.contains_key(k) ==> k < next,
        forall|i: int| 0 <= i < before.len() ==> (#[trigger] before[i]).1.id < next,
        next + chunk_count(buffer.len() as int) <= u64::MAX,
        block + chunk_count(buffer.len() as int) <= u64::MAX,
    ensures
        agrees(objects, before + writes_of(v, block, buffer, next, chunk_count(buffer.len() as int))),
{
    let total = chunk_count(buffer.len() as int);
    let done = writes_of(v, block, buffer, next, total);
    let all = before + done;
    assert forall|i: int| 0 <= i < done.len() implies (#[trigger] done[i]).1.bytes.len() == 4096 && done[i].1.id == next + i by {
        lemma_written_wf(v, block, buffer, next, i);
    }
    assert forall|i: int| 0 <= i < all.len() implies (#[trigger] all[i]) == (if i < before.len() { before[i] } else { done[i - before.len()] }) by {
    }
    assert forall|i: int, j: int|
        0 <= i < all.len() && 0 <= j < all.len() && (#[trigger] all[i]).1.id == (#[trigger] all[j]).1.id implies all[i].1 == all[j].1 by {
        if i >= before.len() {
            assert(done[i - before.len()].1.id == next + (i - before.len()));
        }
        if j >= before.len() {
            assert(done[j - before.len()].1.id == next + (j - before.len()));
        }
    }
}

proof fn lemma_written_wf(v: DiskView, block: u64, buffer: Seq<u8>, next: u64, count: int)
    requires
        v.wf(),
    ensures
        v.written(block, buffer, next, count).wf(),
    decreases count,
{
    if count > 0 {
        lemma_written_wf(v, block, buffer, next, count - 1);
        let before = v.written(block, buffer, next, count - 1);
        let after = v.written(block, buffer, next, count);
        let address = (block + count - 1) as u64;
        assert forall|k: u64| #[trigger] after.blocks.contains_key(k) implies after.blocks[k].bytes.len() == 4096 by {
            if k != address {
                assert(before.blocks.contains_key(k));
            }
        }
    }
}

} // verus!
