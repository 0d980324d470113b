//! An independently writable disk over shared immutable blocks.

use std::sync::Arc;

use vstd::prelude::*;

use crate::bytes::{copy_slice, lay_over, lay_over_slice, zero_bytes};
#[allow(unused_imports)]
use crate::bytes::{laid_over, zeros};
use crate::census::Census;
#[allow(unused_imports)]
use crate::census::{held, held_twice};
use crate::io::{IoError, EIO};
use crate::layered::Layered;
use crate::ordered::{OrdMap, OrdSet};
#[allow(unused_imports)]
use crate::ordered::Key;
use crate::redox::durable::{CheckpointStage, DurableCowDisk, DurableDiskState};
#[allow(unused_imports)]
use crate::redox::durable::{layer_stage, DurableView};
use crate::redox::records::{encode_record, Block, BLOCK_SIZE};
#[allow(unused_imports)]
use crate::redox::records::{block_views, full_blocks, record, BlockView, Blocks};

verus! {

/// A disk whose branches share all blocks that were not written since they parted.
#[derive(Debug)]
pub struct CowDisk {
    size: u64,
    blocks: Layered<u64, Arc<Block>>,
    durable: Option<DurableCowDisk>,
}

/// What a disk holds.
#[verifier::ext_equal]
pub struct DiskView {
    pub size: u64,
    /// The blocks that the disk sees under their addresses.
    pub blocks: Blocks,
    /// The blocks written since the disk was last sealed.
    pub own: Blocks,
    /// The files of a disk that is kept on storage.
    pub durable: Option<DurableView>,
}

impl View for CowDisk {
    type V = DiskView;

    closed spec fn view(&self) -> DiskView {
        DiskView {
            size: self.size,
            blocks: block_views(self.blocks@),
            own: block_views(self.blocks.own()),
            durable: match self.durable {
                Some(durable) => Some(durable@),
                None => None,
            },
        }
    }
}

impl DiskView {
    pub open spec fn wf(self) -> bool {
        full_blocks(self.blocks)
    }

    /// Whether a transfer of `len` bytes from a block on lies within the disk.
    pub open spec fn in_range(self, block: u64, len: int) -> bool {
        block * 4096 + len <= self.size
    }

    /// The byte at a position; blocks that were never written hold zeros.
    pub open spec fn byte(self, position: int) -> u8 {
        let address = (position / 4096) as u64;
        if self.blocks.contains_key(address) {
            self.blocks[address].bytes[position % 4096]
        } else {
            0
        }
    }

    /// What a read of `len` bytes from a block on gives.
    pub open spec fn read(self, block: u64, len: nat) -> Seq<u8> {
        Seq::new(len, |i: int| self.byte(block * 4096 + i))
    }

    /// The bytes of a block.
    pub open spec fn block_bytes(self, address: u64) -> Seq<u8> {
        if self.blocks.contains_key(address) {
            self.blocks[address].bytes
        } else {
            zeros(4096)
        }
    }

    /// The block at an address once chunk `i` of a buffer is written there.
    pub open spec fn chunk_block(self, address: u64, buffer: Seq<u8>, i: int, id: u64) -> BlockView {
        BlockView { id, bytes: laid_over(self.block_bytes(address), 0, chunk(buffer, i)) }
    }

    /// The disk once a block is written.
    pub open spec fn with_block(self, address: u64, block: BlockView) -> DiskView {
        DiskView { blocks: self.blocks.insert(address, block), own: self.own.insert(address, block), ..self }
    }

    /// The disk once the first `count` chunks of a buffer are written from `block` on, as blocks
    /// with identities from `next` on.
    pub open spec fn written(self, block: u64, buffer: Seq<u8>, next: u64, count: int) -> DiskView
        decreases count,
    {
        if count <= 0 {
            self
        } else {
            let before = self.written(block, buffer, next, count - 1);
            let address = (block + count - 1) as u64;
            before.with_block(address, before.chunk_block(address, buffer, count - 1, (next + count - 1) as u64))
        }
    }

    /// The disk with all its blocks sealed.
    pub open spec fn sealed(self) -> DiskView {
        DiskView { own: Map::empty(), ..self }
    }
}

/// How many blocks hold `len` bytes.
pub open spec fn chunk_count(len: int) -> int {
    (len + 4095) / 4096
}

/// The bytes of a buffer that go into its block `i`.
pub open spec fn chunk(buffer: Seq<u8>, i: int) -> Seq<u8> {
    buffer.subrange(
        4096 * i,
        if buffer.len() < 4096 * i + 4096 {
            buffer.len() as int
        } else {
            4096 * i + 4096
        },
    )
}

impl CowDisk {
    pub open spec fn wf(self) -> bool {
        self@.wf()
    }

    /// An empty disk.
    pub fn new(size: u64) -> (disk: Self)
        ensures
            disk.wf(),
            disk@ == (DiskView { size, blocks: Map::empty(), own: Map::empty(), durable: None }),
    {
        let disk = CowDisk { size, blocks: Layered::new(), durable: None };
        assert(disk@.blocks =~= Map::<u64, BlockView>::empty());
        assert(disk@.own =~= Map::<u64, BlockView>::empty());
        disk
    }

    /// An empty disk that is kept on storage.
    pub fn durable(size: u64, durable: DurableCowDisk) -> (disk: Self)
        ensures
            disk.wf(),
            disk@ == (DiskView { size, blocks: Map::empty(), own: Map::empty(), durable: Some(durable@) }),
    {
        let disk = CowDisk { size, blocks: Layered::new(), durable: Some(durable) };
        assert(disk@.blocks =~= Map::<u64, BlockView>::empty());
        assert(disk@.own =~= Map::<u64, BlockView>::empty());
        disk
    }

    /// A disk with the given blocks, which was read back from storage.
    pub fn restored(size: u64, durable: DurableCowDisk, blocks: OrdMap<u64, Arc<Block>>) -> (disk: Self)
        ensures
            disk@ == (DiskView { size, blocks: block_views(blocks@), own: Map::empty(), durable: Some(durable@) }),
            full_blocks(block_views(blocks@)) ==> disk.wf(),
    {
        let disk = CowDisk { size, blocks: Layered::over(blocks), durable: Some(durable) };
        assert(disk@.own =~= Map::<u64, BlockView>::empty());
        disk
    }

    pub fn size(&self) -> (size: u64)
        ensures
            size == self@.size,
    {
        self.size
    }

    /// Whether blocks were written since the disk was last sealed.
    pub fn has_writes(&self) -> (b: bool)
        ensures
            b == (self@.own != Map::<u64, BlockView>::empty()),
    {
        let b = self.blocks.has_changes();
        proof {
            if !b {
                assert(self@.own =~= Map::<u64, BlockView>::empty());
            } else {
                let own = self.blocks.own();
                if self@.own == Map::<u64, BlockView>::empty() {
                    assert forall|k: u64| !own.contains_key(k) by {
                        if own.contains_key(k) {
                            assert(self@.own.contains_key(k));
                        }
                    }
                    assert(own =~= Map::<u64, Arc<Block>>::empty());
                }
            }
        }
        b
    }

    /// The files of the disk.
    pub fn files(&self) -> (files: Option<&DurableCowDisk>)
        ensures
            match files {
                Some(durable) => self@.durable == Some(durable@),
                None => self@.durable is None,
            },
    {
        self.durable.as_ref()
    }

    /// Takes the files of the disk out, to work on them.
    pub fn take_files(&mut self) -> (files: Option<DurableCowDisk>)
        ensures
            match files {
                Some(durable) => old(self)@.durable == Some(durable@),
                None => old(self)@.durable is None,
            },
            final(self)@ == (DiskView { durable: None, ..old(self)@ }),
    {
        self.durable.take()
    }

    /// Puts the files of the disk in.
    pub fn put_files(&mut self, files: DurableCowDisk)
        ensures
            final(self)@ == (DiskView { durable: Some(files@), ..old(self)@ }),
    {
        self.durable = Some(files);
    }

    /// Makes a branch that sees the same blocks, with files of its own where it has some.
    pub fn fork(&mut self, files: Option<DurableCowDisk>) -> (child: Self)
        ensures
            final(self)@ == old(self)@.sealed(),
            child@ == (DiskView {
                durable: match files {
                    Some(durable) => Some(durable@),
                    None => None,
                },
                ..old(self)@.sealed()
            }),
    {
        let blocks = self.blocks.fork();
        let child = CowDisk { size: self.size, blocks, durable: files };
        assert(self@.own =~= Map::<u64, BlockView>::empty());
        assert(child@.own =~= Map::<u64, BlockView>::empty());
        child
    }

    /// What has to be known to find the disk again as it is now, and where saving it begins.
    pub fn durable_state(&self) -> (r: Result<(DurableDiskState, CheckpointStage), IoError>)
        ensures
            match self@.durable {
                Some(durable) => {
                    &&& r is Ok
                    &&& (r->Ok_0).0.size == self@.size
                    &&& (r->Ok_0).0.layers@ == durable.layers
                    &&& (r->Ok_0).0.overlay == durable.overlay
                    &&& (r->Ok_0).1 == layer_stage(durable, 0)
                },
                None => r matches Err(IoError::Other(why)) && why@ == "filesystem branch is not durable"@,
            },
    {
        match &self.durable {
            Some(durable) => Ok(durable.checkpoint(self.size)),
            None => Err(IoError::Other("filesystem branch is not durable".to_owned())),
        }
    }

    /// Seals the blocks once the disk is saved.
    pub fn seal(&mut self)
        ensures
            final(self)@ == old(self)@.sealed(),
    {
        let ghost before = self@;
        self.blocks.seal();
        assert(self@.own =~= Map::<u64, BlockView>::empty());
        assert(self@.blocks =~= before.blocks);
    }

    /// Checks that a transfer lies within the disk.
    pub fn check_range(&self, block: u64, len: usize) -> (r: Result<(), IoError>)
        ensures
            r == (if self@.in_range(block, len as int) {
                Ok::<(), IoError>(())
            } else {
                Err::<(), IoError>(IoError::Os(EIO))
            }),
    {
        let offset: u64 = match block.checked_mul(BLOCK_SIZE) {
            Some(offset) => offset,
            None => {
                return Err(IoError::Os(EIO));
            },
        };
        let end: u64 = match offset.checked_add(len as u64) {
            Some(end) => end,
            None => {
                return Err(IoError::Os(EIO));
            },
        };
        if end > self.size {
            return Err(IoError::Os(EIO));
        }
        Ok(())
    }

    /// Reads from a block on.
    pub fn read_at(&self, block: u64, buffer: &mut [u8]) -> (r: Result<usize, IoError>)
        requires
            self.wf(),
        ensures
            final(buffer)@.len() == old(buffer)@.len(),
            if self@.in_range(block, old(buffer)@.len() as int) {
                &&& r == Ok::<usize, IoError>(old(buffer)@.len() as usize)
                &&& final(buffer)@ == self@.read(block, old(buffer)@.len())
            } else {
                r == Err::<usize, IoError>(IoError::Os(EIO)) && final(buffer)@ == old(buffer)@
            },
    {
        let len: usize = buffer.len();
        self.check_range(block, len)?;
        let mut done: usize = 0;
        let mut address: u64 = block;
        while done < len
            invariant
                self.wf(),
                done <= len,
                buffer@.len() == len,
                len == old(buffer)@.len(),
                self@.in_range(block, len as int),
                done == len || done % 4096 == 0 && address == block + done / 4096,
                forall|i: int| 0 <= i < done ==> #[trigger] buffer@[i] == self@.byte(block * 4096 + i),
            decreases len - done,
        {
            let rest: usize = len - done;
            let size: usize = if rest < 4096 {
                rest
            } else {
                4096
            };
            let ghost earlier = buffer@;
            match self.blocks.get(&address) {
                Some(stored) => {
                    assert(stored@ == self@.blocks[address]);
                    assert(self@.blocks.contains_key(address));
                    lay_over_slice(buffer, done, vstd::slice::slice_subrange(stored.bytes(), 0, size));
                },
                None => {
                    assert(!self@.blocks.contains_key(address));
                    let nothing = zero_bytes(size);
                    lay_over_slice(buffer, done, nothing.as_slice());
                },
            }
            assert forall|i: int| 0 <= i < done + size implies #[trigger] buffer@[i] == self@.byte(block * 4096 + i) by {
                if i < done {
                    assert(buffer@[i] == earlier[i]);
                } else {
                    assert((block * 4096 + i) / 4096 == address);
                    assert((block * 4096 + i) % 4096 == i - done);
                }
            }
            done = done + size;
            if done < len {
                address = address + 1;
            }
        }
        Ok(len)
    }

    /// Writes one chunk of a buffer that begins at `block`. For a disk that is kept on storage, the
    /// record to append to its overlay comes back.
    pub fn write_chunk(&mut self, block: u64, buffer: &[u8], index: usize, next_block: &mut u64) -> (saved: Option<Vec<u8>>)
        requires
            old(self).wf(),
            old(self)@.in_range(block, buffer@.len() as int),
            index < chunk_count(buffer@.len() as int),
            *old(next_block) < u64::MAX,
        ensures
            final(self).wf(),
            *final(next_block) == *old(next_block) + 1,
            ({
                let v = old(self)@;
                let address = (block + index) as u64;
                let written = v.chunk_block(address, buffer@, index as int, *old(next_block));
                &&& final(self)@ == v.with_block(address, written)
                &&& match saved {
                    Some(bytes) => v.durable is Some && bytes@ == record(address, written),
                    None => v.durable is None,
                }
            }),
    {
        let ghost v = self@;
        let len: usize = buffer.len();
        let start: usize = index * 4096;
        let rest: usize = len - start;
        let size: usize = if rest < 4096 {
            rest
        } else {
            4096
        };
        let address: u64 = block + index as u64;
        let mut bytes = match self.blocks.get(&address) {
            Some(stored) => {
                assert(stored@ == v.blocks[address]);
                assert(v.blocks.contains_key(address));
                copy_slice(stored.bytes())
            },
            None => {
                assert(!v.blocks.contains_key(address));
                zero_bytes(4096)
            },
        };
        assert(bytes@ == v.block_bytes(address));
        lay_over(&mut bytes, 0, buffer, start, size);
        assert(buffer@.subrange(start as int, start + size) =~= chunk(buffer@, index as int));
        let id: u64 = *next_block;
        *next_block = id + 1;
        let written = Block::new(id, bytes);
        let ghost expected = v.chunk_block(address, buffer@, index as int, id);
        let saved = match &self.durable {
            Some(_) => Some(encode_record(address, &written)),
            None => None,
        };
        self.blocks.insert(address, Arc::new(written));
        assert(self@.blocks =~= v.blocks.insert(address, expected));
        assert(self@.own =~= v.own.insert(address, expected));
        assert(self@.wf()) by {
            assert forall|k: u64| #[trigger] self@.blocks.contains_key(k) implies self@.blocks[k].bytes.len() == 4096 by {
                if k != address {
                    assert(v.blocks.contains_key(k));
                }
            }
        }
        saved
    }

    /// Writes from a block on, each block under a new identity. The records to append to the
    /// overlay of a disk that is kept on storage come back, in order.
    pub fn write_at(&mut self, block: u64, buffer: &[u8], next_block: &mut u64) -> (r: Result<Vec<Vec<u8>>, IoError>)
        requires
            old(self).wf(),
            *old(next_block) + chunk_count(buffer@.len() as int) <= u64::MAX,
        ensures
            final(self).wf(),
            ({
                let v = old(self)@;
                let next = *old(next_block);
                let total = chunk_count(buffer@.len() as int);
                match r {
                    Ok(records) => {
                        &&& v.in_range(block, buffer@.len() as int)
                        &&& final(self)@ == v.written(block, buffer@, next, total)
                        &&& *final(next_block) == next + total
                        &&& if v.durable is Some {
                            &&& records@.len() == total
                            &&& forall|i: int| 0 <= i < total ==> (#[trigger] records@[i])@ == record(
                                (block + i) as u64,
                                v.written(block, buffer@, next, i).chunk_block((block + i) as u64, buffer@, i, (next + i) as u64),
                            )
                        } else {
                            records@.len() == 0
                        }
                    },
                    Err(e) => {
                        &&& e == IoError::Os(EIO)
                        &&& !v.in_range(block, buffer@.len() as int)
                        &&& final(self)@ == v
                        &&& *final(next_block) == next
                    },
                }
            }),
    {
        let ghost v = self@;
        let ghost next = *next_block;
        let len: usize = buffer.len();
        self.check_range(block, len)?;
        let mut records: Vec<Vec<u8>> = Vec::new();
        let ghost total = chunk_count(len as int);
        let mut done: usize = 0;
        let mut index: usize = 0;
        while done < len
            invariant
                len == buffer@.len(),
                total == chunk_count(len as int),
                done <= len,
                done == len && index == total || done == index * 4096,
                0 <= index <= total,
                self.wf(),
                v.in_range(block, len as int),
                self@.in_range(block, len as int),
                self@ == v.written(block, buffer@, next, index as int),
                self@.durable == v.durable,
                *next_block == next + index,
                next + total <= u64::MAX,
                if v.durable is Some {
                    &&& records@.len() == index
                    &&& forall|i: int| 0 <= i < index ==> (#[trigger] records@[i])@ == record(
                        (block + i) as u64,
                        v.written(block, buffer@, next, i).chunk_block((block + i) as u64, buffer@, i, (next + i) as u64),
                    )
                } else {
                    records@.len() == 0
                },
            decreases len - done,
        {
            let saved = self.write_chunk(block, buffer, index, next_block);
            if let Some(saved) = saved {
                records.push(saved);
            }
            index += 1;
            done = if len - done < 4096 {
                len
            } else {
                done + 4096
            };
        }
        Ok(records)
    }

    /// The identities of the blocks that the disk sees.
    fn block_ids(&self) -> (ids: OrdSet<u64>)
        ensures
            ids@ == block_ids(self@.blocks),
    {
        let visible = self.blocks.visible();
        let n: usize = visible.len();
        let mut ids: OrdSet<u64> = OrdSet::new();
        let mut i: usize = 0;
        while i < n
            invariant
                i <= n,
                n == visible.keys().len(),
                block_views(visible@) == self@.blocks,
                visible.listed(),
                forall|id: u64| #[trigger] ids@.contains(id) <==> exists|j: int| 0 <= j < i && self@.blocks[#[trigger] visible.keys()[j]].id == id,
            decreases n - i,
        {
            let ghost earlier = ids@;
            let block = visible.value_at(i);
            assert(block@ == self@.blocks[visible.keys()[i as int]]);
            ids.insert(block.id());
            assert forall|id: u64| #[trigger] ids@.contains(id) <==> exists|j: int| 0 <= j < i + 1 && self@.blocks[#[trigger] visible.keys()[j]].id == id by {
                if earlier.contains(id) {
                    let j = choose|j: int| 0 <= j < i && self@.blocks[#[trigger] visible.keys()[j]].id == id;
                    assert(self@.blocks[visible.keys()[j]].id == id);
                }
            }
            i += 1;
        }
        assert(ids@ =~= block_ids(self@.blocks)) by {
            assert forall|id: u64| ids@.contains(id) <==> block_ids(self@.blocks).contains(id) by {
                if ids@.contains(id) {
                    let j = choose|j: int| 0 <= j < n && self@.blocks[#[trigger] visible.keys()[j]].id == id;
                    assert(self@.blocks.contains_key(visible.keys()[j]));
                }
                if block_ids(self@.blocks).contains(id) {
                    let k = choose|k: u64| #[trigger] self@.blocks.contains_key(k) && self@.blocks[k].id == id;
                    assert(visible@.contains_key(k));
                    assert(visible.keys().contains(k));
                    let j = choose|j: int| 0 <= j < visible.keys().len() && visible.keys()[j] == k;
                    assert(self@.blocks[visible.keys()[j]].id == id);
                }
            }
        }
        ids
    }
}

/// The identities of the given blocks.
pub open spec fn block_ids(blocks: Blocks) -> Set<u64> {
    Set::new(|id: u64| exists|k: u64| #[trigger] blocks.contains_key(k) && blocks[k].id == id)
}

/// Counts of the blocks behind some disks.
#[derive(Clone, Copy, Debug, Eq, PartialEq, Structural)]
pub struct BlockAccounting {
    pub resident_blocks: usize,
    pub shared_blocks: usize,
}

/// Counts the blocks that the disks see, and those that two or more of them see.
pub fn block_accounting(disks: &Vec<&CowDisk>) -> (accounting: BlockAccounting)
    ensures
        ({
            let sets = disks@.map_values(|disk: &CowDisk| block_ids(disk@.blocks));
            &&& accounting.resident_blocks == held(sets).len()
            &&& accounting.shared_blocks == held_twice(sets).len()
        }),
{
    let ghost sets = disks@.map_values(|disk: &CowDisk| block_ids(disk@.blocks));
    let mut census = Census::new();
    let n: usize = disks.len();
    let mut i: usize = 0;
    assert(sets.take(0) =~= Seq::<Set<u64>>::empty());
    while i < n
        invariant
            i <= n,
            n == disks@.len(),
            sets == disks@.map_values(|disk: &CowDisk| block_ids(disk@.blocks)),
            census.wf(),
            census.sets() == sets.take(i as int),
        decreases n - i,
    {
        let ids = disks[i].block_ids();
        census.count_set(&ids);
        assert(sets.take(i + 1) =~= sets.take(i as int).push(ids@));
        i += 1;
    }
    assert(sets.take(n as int) =~= sets);
    BlockAccounting { resident_blocks: census.resident(), shared_blocks: census.shared() }
}

/// A fork shares every block with its source and copies none; both see the same bytes.
pub proof fn fork_shares_all_blocks(v: DiskView, files: Option<DurableView>, position: int)
    ensures
        v.sealed().blocks == v.blocks,
        (DiskView { durable: files, ..v.sealed() }).blocks == v.blocks,
        v.sealed().byte(position) == v.byte(position),
        (DiskView { durable: files, ..v.sealed() }).byte(position) == v.byte(position),
{
}

/// A disk reads the bytes that were written to it, and everything else as before. Other disks are
/// not touched, as a write changes no block but puts new ones in place.
pub proof fn reads_what_was_written(v: DiskView, block: u64, buffer: Seq<u8>, next: u64, count: int, position: int)
    requires
        v.wf(),
        v.in_range(block, buffer.len() as int),
        0 <= count <= chunk_count(buffer.len() as int),
        0 <= position < v.size,
    ensures
        v.written(block, buffer, next, count).wf(),
        v.written(block, buffer, next, count).size == v.size,
        v.written(block, buffer, next, count).byte(position) == (if block * 4096 <= position < block * 4096 + buffer.len() && position < block * 4096
            + 4096 * count {
            buffer[position - block * 4096]
        } else {
            v.byte(position)
        }),
    decreases count,
{
    if count > 0 {
        reads_what_was_written(v, block, buffer, next, count - 1, position);
        let before = v.written(block, buffer, next, count - 1);
        let w = v.written(block, buffer, next, count);
        let address = (block + count - 1) as u64;
        let i = count - 1;
        assert(address == block + i);
        let part = chunk(buffer, i);
        assert(4096 * i < buffer.len());
        assert(before.block_bytes(address).len() == 4096);
        assert(w.wf()) by {
            assert forall|k: u64| #[trigger] w.blocks.contains_key(k) implies w.blocks[k].bytes.len() == 4096 by {
                if k != address {
                    assert(before.blocks.contains_key(k));
                }
            }
        }
        if (position / 4096) as u64 == address {
            assert(position / 4096 == address);
            assert(position % 4096 == position - block * 4096 - 4096 * i);
        }
    }
}

} // verus!
