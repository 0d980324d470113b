//! What transfers, records and numbers of branch disks come to.

use vstd::bytes::{lemma_auto_spec_u64_to_from_le_bytes, spec_u64_from_le_bytes};
use vstd::prelude::*;

#[allow(unused_imports)]
use crate::cache::dirty::PageKey;
#[allow(unused_imports)]
use crate::cache::store::NodeId;
#[allow(unused_imports)]
use crate::redox::branch::is_largest;
#[allow(unused_imports)]
use crate::redox::disk::{block_ids, chunk_count, reads_what_was_written, DiskView};
#[allow(unused_imports)]
use crate::redox::identity::{files_of, lemma_files_of, lemma_pages_of, pages_of, IdentitySource, IdentityView, RedoxFileIdentity, RedoxPageVersion};
#[allow(unused_imports)]
use crate::redox::records::{load_ends, record, record_address, record_block, BlockView, Blocks, LayerError, LoadView};

verus! {

/// A transfer is accepted if and only if each of its bytes lies on the disk; one of no bytes may also
/// begin right at the disk's end.
pub proof fn transfers_lie_on_the_disk(v: DiskView, block: u64, len: int)
    requires
        0 <= len,
    ensures
        len > 0 ==> (v.in_range(block, len) <==> forall|i: int| 0 <= i < len ==> #[trigger] lies_on(v, block * 4096 + i)),
        v.in_range(block, 0) <==> block * 4096 <= v.size,
{
    if len > 0 && (forall|i: int| 0 <= i < len ==> #[trigger] lies_on(v, block * 4096 + i)) {
        assert(lies_on(v, block * 4096 + (len - 1)));
    }
}

/// Whether a byte of this number lies on the disk.
pub open spec fn lies_on(v: DiskView, position: int) -> bool {
    0 <= position < v.size
}

/// A disk without blocks reads as zeros, and a write is read back where it was written, with all else as
/// it was.
pub proof fn disk_reads_back(v: DiskView, block: u64, buffer: Seq<u8>, next: u64, position: int)
    requires
        v.wf(),
        v.in_range(block, buffer.len() as int),
        0 <= position < v.size,
    ensures
        v.blocks == Map::<u64, BlockView>::empty() ==> v.byte(position) == 0,
        v.written(block, buffer, next, chunk_count(buffer.len() as int)).byte(position) == (if block * 4096 <= position < block * 4096 + buffer.len() {
            buffer[position - block * 4096]
        } else {
            v.byte(position)
        }),
        chunk_count(buffer.len() as int) * 4096 >= buffer.len(),
        (chunk_count(buffer.len() as int) - 1) * 4096 < buffer.len(),
{
    reads_what_was_written(v, block, buffer, next, chunk_count(buffer.len() as int), position);
}

/// A write gives a block to each place in which one of its bytes lies, with an identity that no block had,
/// and leaves the blocks of all other places: what a branch shares it goes on sharing.
pub proof fn only_written_blocks_change(v: DiskView, block: u64, buffer: Seq<u8>, next: u64, count: int, address: u64)
    requires
        0 <= count <= chunk_count(buffer.len() as int),
        block + count <= u64::MAX,
        next + count <= u64::MAX,
    ensures
        ({
            let w = v.written(block, buffer, next, count);
            &&& block <= address < block + count ==> {
                &&& w.blocks.contains_key(address) && w.blocks[address].id == next + (address - block)
                &&& w.own.contains_key(address) && w.own[address] == w.blocks[address]
            }
            &&& !(block <= address < block + count) ==> {
                &&& w.blocks.contains_key(address) <==> v.blocks.contains_key(address)
                &&& v.blocks.contains_key(address) ==> w.blocks[address] == v.blocks[address]
                &&& w.own.contains_key(address) <==> v.own.contains_key(address)
            }
            &&& w.size == v.size && w.durable == v.durable
        }),
    decreases count,
{
    if count > 0 {
        only_written_blocks_change(v, block, buffer, next, count - 1, address);
    }
}

/// Sealing and forking a disk forget what was written since, and keep what is seen.
pub proof fn sealing_keeps_what_is_seen(v: DiskView, position: int)
    ensures
        v.sealed().own == Map::<u64, BlockView>::empty(),
        v.sealed().blocks == v.blocks,
        v.sealed().byte(position) == v.byte(position),
        v.sealed().size == v.size,
        v.sealed().durable == v.durable,
{
}

/// The identities that a disk is counted by are those of its blocks.
pub proof fn counted_by_their_blocks(blocks: Blocks, id: u64)
    ensures
        block_ids(blocks).contains(id) <==> exists|k: u64| #[trigger] blocks.contains_key(k) && blocks[k].id == id,
{
}

/// A record is the block's address, its identity and its bytes, in this order, the numbers in eight bytes
/// with the lowest first.
pub proof fn records_hold_address_identity_and_bytes(address: u64, block: BlockView, i: int)
    requires
        block.bytes.len() == 4096,
        0 <= i < 4096,
    ensures
        record(address, block).len() == 4112,
        spec_u64_from_le_bytes(record(address, block).subrange(0, 8)) == address,
        spec_u64_from_le_bytes(record(address, block).subrange(8, 16)) == block.id,
        record(address, block)[16 + i] == block.bytes[i],
        record_address(record(address, block), 0) == address,
        record_block(record(address, block), 0) == block,
{
    lemma_auto_spec_u64_to_from_le_bytes();
    let bytes = record(address, block);
    assert(bytes.subrange(0, 8) =~= vstd::bytes::spec_u64_to_le_bytes(address));
    assert(bytes.subrange(8, 16) =~= vstd::bytes::spec_u64_to_le_bytes(block.id));
    assert(bytes.subrange(16, 4112) =~= block.bytes);
}

/// A layer is read record by record: what is seen at an address is the block of the last record for it,
/// and what no record is for is seen as before. A record that gives a known block other bytes is a
/// conflict.
pub proof fn the_last_record_counts(was: LoadView, layer: Seq<u8>, count: int, address: u64, i: int)
    requires
        0 <= count,
        forall|j: int| 0 <= j < count ==> !#[trigger] was.conflict(layer, j),
        forall|id: u64| #[trigger] was.objects.contains_key(id) ==> was.objects[id].id == id,
    ensures
        ({
            let now = was.loaded(layer, count).visible;
            &&& 0 <= i < count && record_address(layer, i) == address && (forall|j: int| i < j < count ==> #[trigger] record_address(layer, j) != address)
                ==> now.contains_key(address) && now[address] == record_block(layer, i)
            &&& (forall|j: int| 0 <= j < count ==> #[trigger] record_address(layer, j) != address) ==> (now.contains_key(address)
                <==> was.visible.contains_key(address)) && (was.visible.contains_key(address) ==> now[address] == was.visible[address])
        }),
        forall|id: u64| #[trigger] was.loaded(layer, count).objects.contains_key(id) ==> was.loaded(layer, count).objects[id].id == id,
    decreases count,
{
    if count > 0 {
        assert forall|j: int| 0 <= j < count - 1 implies !#[trigger] was.conflict(layer, j) by {}
        the_last_record_counts(was, layer, count - 1, address, i);
        assert(!was.conflict(layer, count - 1));
        let block = record_block(layer, count - 1);
        let before = was.loaded(layer, count - 1);
        if before.objects.contains_key(block.id) {
            assert(before.objects[block.id] == block);
        }
        if i == count - 1 {
            assert(record_address(layer, i) == address ==> was.loaded(layer, count).visible[address] == block);
        }
    }
}

/// Once a lineage is read back, none of its branches uses an object or a version that would be given out
/// again.
pub proof fn restored_identities_are_not_reused(
    files: Seq<RedoxFileIdentity>,
    pages: Seq<RedoxPageVersion>,
    was_file: u64,
    was_version: u64,
    max_file: u64,
    max_version: u64,
    source: IdentitySource,
)
    requires
        is_largest(was_file, files.map_values(|f: RedoxFileIdentity| f.object), max_file),
        is_largest(was_version, pages.map_values(|p: RedoxPageVersion| p.version), max_version),
        max_file < source.next_object,
        max_version < source.next_version,
    ensures
        (IdentityView { files: files_of(files), pages: pages_of(pages) }).drawn_from(source),
        was_file <= max_file,
        was_version <= max_version,
        max_file == was_file || exists|i: int| 0 <= i < files.len() && (#[trigger] files[i]).object == max_file,
        max_version == was_version || exists|i: int| 0 <= i < pages.len() && (#[trigger] pages[i]).version == max_version,
{
    let objects = files.map_values(|f: RedoxFileIdentity| f.object);
    let versions = pages.map_values(|p: RedoxPageVersion| p.version);
    lemma_files_of(files);
    lemma_pages_of(pages);
    assert forall|node: NodeId| #[trigger] files_of(files).contains_key(node) implies files_of(files)[node] < source.next_object by {
        let i = choose|i: int| 0 <= i < files.len() && (#[trigger] files[i]).node == node && files[i].object == files_of(files)[node];
        assert(objects[i] <= max_file);
    }
    assert forall|k: PageKey| #[trigger] pages_of(pages).contains_key(k) implies pages_of(pages)[k] < source.next_version by {
        let i = choose|i: int| 0 <= i < pages.len() && ((#[trigger] pages[i]).node, pages[i].page) == k && pages[i].version == pages_of(pages)[k];
        assert(versions[i] <= max_version);
    }
    if objects.contains(max_file) {
        let i = choose|i: int| 0 <= i < objects.len() && objects[i] == max_file;
        assert(files[i].object == max_file);
    }
    if versions.contains(max_version) {
        let i = choose|i: int| 0 <= i < versions.len() && versions[i] == max_version;
        assert(pages[i].version == max_version);
    }
}

/// A layer is taken in if and only if it consists of whole records and none of them is in conflict with
/// those before it. A part of a record changes nothing; a conflict is told of the first record that is in
/// one, once those before it are taken in.
pub proof fn layers_are_taken_in_only_so(was: LoadView, now: LoadView, layer: Seq<u8>, r: Result<(), LayerError>, i: int)
    requires
        load_ends(was, now, layer, r),
    ensures
        r is Ok <==> layer.len() % 4112 == 0 && forall|j: int| 0 <= j < layer.len() as int / 4112 ==> !#[trigger] was.conflict(layer, j),
        r is Ok ==> now == was.loaded(layer, layer.len() as int / 4112),
        r is Err && layer.len() % 4112 != 0 ==> r->Err_0 is PartialRecord && now == was,
        r is Err && layer.len() % 4112 == 0 && 0 <= i < layer.len() as int / 4112 && was.conflict(layer, i) && (forall|j: int|
            0 <= j < i ==> !#[trigger] was.conflict(layer, j)) ==> {
            &&& r->Err_0 == LayerError::ConflictingContents(record_block(layer, i).id)
            &&& now == was.loaded(layer, i)
        },
{
    let total = layer.len() as int / 4112;
    if let Err(LayerError::ConflictingContents(id)) = r {
        let k = choose|k: int|
            {
                &&& 0 <= k < total
                &&& #[trigger] was.conflict(layer, k)
                &&& id == record_block(layer, k).id
                &&& forall|j: int| 0 <= j < k ==> !#[trigger] was.conflict(layer, j)
                &&& now == was.loaded(layer, k)
            };
        assert(was.conflict(layer, k));
        if 0 <= i < total && was.conflict(layer, i) && forall|j: int| 0 <= j < i ==> !#[trigger] was.conflict(layer, j) {
            assert(i == k);
        }
    }
}

/// What is read of a disk is its bytes, one for one, from the block on; what was written there before is
/// read back.
pub proof fn disk_reads_give_back_writes(v: DiskView, block: u64, buffer: Seq<u8>, next: u64, i: int)
    requires
        v.wf(),
        v.in_range(block, buffer.len() as int),
        0 <= i < buffer.len(),
    ensures
        v.read(block, buffer.len()).len() == buffer.len(),
        v.read(block, buffer.len())[i] == v.byte(block * 4096 + i),
        v.written(block, buffer, next, chunk_count(buffer.len() as int)).read(block, buffer.len()) == buffer,
{
    let w = v.written(block, buffer, next, chunk_count(buffer.len() as int));
    assert forall|j: int| 0 <= j < buffer.len() implies #[trigger] w.read(block, buffer.len())[j] == buffer[j] by {
        disk_reads_back(v, block, buffer, next, block * 4096 + j);
    }
    assert(w.read(block, buffer.len()) =~= buffer);
}

} // verus!
