//! Disk blocks, and the records under which they are kept in a layer file.

use std::sync::Arc;

use vstd::prelude::*;
use vstd::string::StringExecFns;
#[allow(unused_imports)]
use vstd::bytes::{lemma_auto_spec_u64_to_from_le_bytes, spec_u64_from_le_bytes, spec_u64_to_le_bytes};
use vstd::bytes::{u64_from_le_bytes, u64_to_le_bytes};

use crate::bytes::copy_slice;
use crate::ordered::OrdMap;
use crate::text::append_decimal;
#[allow(unused_imports)]
use crate::text::decimal;

verus! {

pub const BLOCK_SIZE: u64 = 4096;

/// The length of a record: an address, a block's identity and its bytes.
pub const LAYER_RECORD_SIZE: usize = 4112;

/// One immutable disk block.
#[derive(Debug)]
pub struct Block {
    id: u64,
    bytes: Vec<u8>,
}

/// What a block is: its identity and its contents.
#[verifier::ext_equal]
pub struct BlockView {
    pub id: u64,
    pub bytes: Seq<u8>,
}

impl View for Block {
    type V = BlockView;

    closed spec fn view(&self) -> BlockView {
        BlockView { id: self.id, bytes: self.bytes@ }
    }
}

impl Block {
    pub fn new(id: u64, bytes: Vec<u8>) -> (block: Self)
        ensures
            block@ == (BlockView { id, bytes: bytes@ }),
    {
        Block { id, bytes }
    }

    pub fn id(&self) -> (id: u64)
        ensures
            id == self@.id,
    {
        self.id
    }

    pub fn bytes(&self) -> (bytes: &[u8])
        ensures
            bytes@ == self@.bytes,
    {
        self.bytes.as_slice()
    }
}

/// Blocks under their addresses or identities.
pub type Blocks = Map<u64, BlockView>;

/// The given blocks as values.
pub open spec fn block_views(blocks: Map<u64, Arc<Block>>) -> Blocks {
    blocks.map_values(|block: Arc<Block>| block@)
}

/// Whether each block holds exactly one block of bytes.
pub open spec fn full_blocks(blocks: Blocks) -> bool {
    forall|k: u64| #[trigger] blocks.contains_key(k) ==> blocks[k].bytes.len() == 4096
}

/// The record of a block written at an address.
pub open spec fn record(address: u64, block: BlockView) -> Seq<u8> {
    spec_u64_to_le_bytes(address) + spec_u64_to_le_bytes(block.id) + block.bytes
}

/// Puts a block's record together.
pub fn encode_record(address: u64, block: &Block) -> (bytes: Vec<u8>)
    ensures
        bytes@ == record(address, block@),
{
    let mut bytes = u64_to_le_bytes(address);
    let mut id = u64_to_le_bytes(block.id);
    bytes.append(&mut id);
    bytes.extend_from_slice(block.bytes.as_slice());
    assert(bytes@ =~= record(address, block@));
    bytes
}

/// The address in record `i` of a layer.
pub open spec fn record_address(layer: Seq<u8>, i: int) -> u64 {
    spec_u64_from_le_bytes(layer.subrange(4112 * i, 4112 * i + 8))
}

/// The block in record `i` of a layer.
pub open spec fn record_block(layer: Seq<u8>, i: int) -> BlockView {
    BlockView {
        id: spec_u64_from_le_bytes(layer.subrange(4112 * i + 8, 4112 * i + 16)),
        bytes: layer.subrange(4112 * i + 16, 4112 * i + 4112),
    }
}

/// What loading layers has found so far.
#[verifier::ext_equal]
pub struct LoadView {
    /// The blocks known under their identities.
    pub objects: Blocks,
    /// The blocks seen under their addresses.
    pub visible: Blocks,
    /// A number above the identities of all known blocks, or the largest there is.
    pub next_block: u64,
}

impl LoadView {
    /// The same once one more record is read.
    pub open spec fn after(self, address: u64, block: BlockView) -> LoadView {
        let above = if block.id < u64::MAX {
            (block.id + 1) as u64
        } else {
            u64::MAX
        };
        LoadView {
            objects: if self.objects.contains_key(block.id) {
                self.objects
            } else {
                self.objects.insert(block.id, block)
            },
            visible: self.visible.insert(
                address,
                if self.objects.contains_key(block.id) {
                    self.objects[block.id]
                } else {
                    block
                },
            ),
            next_block: if above > self.next_block {
                above
            } else {
                self.next_block
            },
        }
    }

    /// The same once the first `count` records of a layer are read.
    pub open spec fn loaded(self, layer: Seq<u8>, count: int) -> LoadView
        decreases count,
    {
        if count <= 0 {
            self
        } else {
            self.loaded(layer, count - 1).after(record_address(layer, count - 1), record_block(layer, count - 1))
        }
    }

    /// Whether record `i` of a layer gives a known block other contents.
    pub open spec fn conflict(self, layer: Seq<u8>, i: int) -> bool {
        let block = record_block(layer, i);
        let known = self.loaded(layer, i).objects;
        known.contains_key(block.id) && known[block.id].bytes != block.bytes
    }
}

/// Why a layer cannot be loaded.
#[derive(Clone, Copy, Debug, Eq, PartialEq, Structural)]
pub enum LayerError {
    /// The layer ends with a partial block record.
    PartialRecord,
    /// The block object with this identity has conflicting contents.
    ConflictingContents(u64),
}

/// How reading a layer ends.
pub open spec fn load_ends(was: LoadView, now: LoadView, layer: Seq<u8>, r: Result<(), LayerError>) -> bool {
    let total = layer.len() as int / 4112;
    match r {
        Ok(()) => {
            &&& layer.len() % 4112 == 0
            &&& forall|i: int| 0 <= i < total ==> !#[trigger] was.conflict(layer, i)
            &&& now == was.loaded(layer, total)
        },
        Err(LayerError::PartialRecord) => layer.len() % 4112 != 0 && now == was,
        Err(LayerError::ConflictingContents(id)) => {
            &&& layer.len() % 4112 == 0
            &&& exists|i: int|
                {
                    &&& 0 <= i < total
                    &&& #[trigger] was.conflict(layer, i)
                    &&& id == record_block(layer, i).id
                    &&& forall|j: int| 0 <= j < i ==> !#[trigger] was.conflict(layer, j)
                    &&& now == was.loaded(layer, i)
                }
        },
    }
}

/// Reads the records of a layer.
pub fn load_records(
    layer: &[u8],
    objects: &mut OrdMap<u64, Arc<Block>>,
    visible: &mut OrdMap<u64, Arc<Block>>,
    next_block: &mut u64,
) -> (r: Result<(), LayerError>)
    ensures
        load_ends(
            LoadView { objects: block_views(old(objects)@), visible: block_views(old(visible)@), next_block: *old(next_block) },
            LoadView { objects: block_views(final(objects)@), visible: block_views(final(visible)@), next_block: *final(next_block) },
            layer@,
            r,
        ),
        full_blocks(block_views(old(visible)@)) ==> full_blocks(block_views(final(visible)@)),
        full_blocks(block_views(old(objects)@)) ==> full_blocks(block_views(final(objects)@)),
{
    let ghost was = LoadView { objects: block_views(objects@), visible: block_views(visible@), next_block: *next_block };
    let len: usize = layer.len();
    if len % LAYER_RECORD_SIZE != 0 {
        return Err(LayerError::PartialRecord);
    }
    let total: usize = len / LAYER_RECORD_SIZE;
    let mut i: usize = 0;
    while i < total
        invariant
            i <= total,
            len == layer@.len(),
            len == 4112 * total,
            was == (LoadView { objects: block_views(old(objects)@), visible: block_views(old(visible)@), next_block: *old(next_block) }),
            block_views(objects@) == was.loaded(layer@, i as int).objects,
            block_views(visible@) == was.loaded(layer@, i as int).visible,
            *next_block == was.loaded(layer@, i as int).next_block,
            forall|j: int| 0 <= j < i ==> !#[trigger] was.conflict(layer@, j),
            full_blocks(was.visible) ==> full_blocks(block_views(visible@)),
            full_blocks(was.objects) ==> full_blocks(block_views(objects@)),
        decreases total - i,
    {
        let ghost before = was.loaded(layer@, i as int);
        let start: usize = i * LAYER_RECORD_SIZE;
        let address: u64 = u64_from_le_bytes(vstd::slice::slice_subrange(layer, start, start + 8));
        let id: u64 = u64_from_le_bytes(vstd::slice::slice_subrange(layer, start + 8, start + 16));
        let bytes = vstd::slice::slice_subrange(layer, start + 16, start + LAYER_RECORD_SIZE);
        let ghost found = record_block(layer@, i as int);
        assert(found.id == id && found.bytes == bytes@);
        assert(address == record_address(layer@, i as int));
        let block: Arc<Block> = match objects.get(&id) {
            Some(existing) => {
                assert(existing@ == before.objects[id]);
                if !same_bytes(existing.bytes.as_slice(), bytes) {
                    assert(was.conflict(layer@, i as int));
                    return Err(LayerError::ConflictingContents(id));
                }
                Arc::clone(existing)
            },
            None => {
                let block = Arc::new(Block { id, bytes: copy_slice(bytes) });
                objects.insert(id, Arc::clone(&block));
                block
            },
        };
        assert(!was.conflict(layer@, i as int));
        assert(block_views(objects@) =~= before.after(address, found).objects);
        let above: u64 = if id < u64::MAX {
            id + 1
        } else {
            u64::MAX
        };
        if above > *next_block {
            *next_block = above;
        }
        visible.insert(address, block);
        assert(block_views(visible@) =~= before.after(address, found).visible);
        i += 1;
    }
    Ok(())
}

fn same_bytes(a: &[u8], b: &[u8]) -> (same: bool)
    ensures
        same == (a@ == b@),
{
    let n: usize = a.len();
    if n != b.len() {
        return false;
    }
    let mut i: usize = 0;
    while i < n
        invariant
            i <= n,
            n == a@.len(),
            n == b@.len(),
            forall|j: int| 0 <= j < i ==> a@[j] == b@[j],
        decreases n - i,
    {
        if a[i] != b[i] {
            return false;
        }
        i += 1;
    }
    assert(a@ =~= b@);
    true
}

/// Blocks written at addresses, in the order of the writes.
pub type Writes = Seq<(u64, BlockView)>;

/// The layer that holds the records of some writes.
pub open spec fn layer_of(writes: Writes) -> Seq<u8>
    decreases writes.len(),
{
    if writes.len() == 0 {
        Seq::empty()
    } else {
        layer_of(writes.drop_last()) + record(writes.last().0, writes.last().1)
    }
}

/// What reading a layer gives back is what was written to it: address and block of each write, in
/// order, and nothing else.
pub proof fn layers_read_back(writes: Writes, i: int)
    requires
        0 <= i < writes.len(),
        forall|j: int| 0 <= j < writes.len() ==> (#[trigger] writes[j]).1.bytes.len() == 4096,
    ensures
        layer_of(writes).len() == 4112 * writes.len(),
        record_address(layer_of(writes), i) == writes[i].0,
        record_block(layer_of(writes), i) == writes[i].1,
    decreases writes.len(),
{
    let rest = writes.drop_last();
    let last = writes.last();
    let layer = layer_of(writes);
    lemma_auto_spec_u64_to_from_le_bytes();
    assert forall|j: int| 0 <= j < rest.len() implies (#[trigger] rest[j]).1.bytes.len() == 4096 by {
        assert(rest[j] == writes[j]);
    }
    lemma_layer_len(rest);
    lemma_layer_len(writes);
    assert(record(last.0, last.1).len() == 4112);
    if i < rest.len() {
        layers_read_back(rest, i);
        assert(rest[i] == writes[i]);
        assert(layer.subrange(4112 * i, 4112 * i + 8) =~= layer_of(rest).subrange(4112 * i, 4112 * i + 8));
        assert(layer.subrange(4112 * i + 8, 4112 * i + 16) =~= layer_of(rest).subrange(4112 * i + 8, 4112 * i + 16));
        assert(layer.subrange(4112 * i + 16, 4112 * i + 4112) =~= layer_of(rest).subrange(4112 * i + 16, 4112 * i + 4112));
    } else {
        assert(layer.subrange(4112 * i, 4112 * i + 8) =~= spec_u64_to_le_bytes(last.0));
        assert(layer.subrange(4112 * i + 8, 4112 * i + 16) =~= spec_u64_to_le_bytes(last.1.id));
        assert(layer.subrange(4112 * i + 16, 4112 * i + 4112) =~= last.1.bytes);
    }
}

proof fn lemma_layer_len(writes: Writes)
    requires
        forall|j: int| 0 <= j < writes.len() ==> (#[trigger] writes[j]).1.bytes.len() == 4096,
    ensures
        layer_of(writes).len() == 4112 * writes.len(),
    decreases writes.len(),
{
    lemma_auto_spec_u64_to_from_le_bytes();
    if writes.len() > 0 {
        let rest = writes.drop_last();
        assert forall|j: int| 0 <= j < rest.len() implies (#[trigger] rest[j]).1.bytes.len() == 4096 by {
            assert(rest[j] == writes[j]);
        }
        lemma_layer_len(rest);
        assert(writes.last() == writes[writes.len() - 1]);
    }
}

impl LayerError {
    /// The error in words, for the layer at `path`.
    pub fn message(&self, path: &str) -> (text: String)
        ensures
            text@ == (match *self {
                LayerError::PartialRecord => "filesystem layer "@ + path@ + " ends with a partial block record"@,
                LayerError::ConflictingContents(id) => "filesystem block object "@ + decimal(id as nat)
                    + " has conflicting contents"@,
            }),
    {
        match self {
            LayerError::PartialRecord => {
                let mut text: String = "filesystem layer ".to_owned();
                text.append(path);
                text.append(" ends with a partial block record");
                text
            },
            LayerError::ConflictingContents(id) => {
                let mut text: String = "filesystem block object ".to_owned();
                append_decimal(&mut text, *id);
                text.append(" has conflicting contents");
                text
            },
        }
    }
}

} // verus!
