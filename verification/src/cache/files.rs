//! Reading and writing files through a shared page cache.

use vstd::prelude::*;

use crate::bytes::lay_over_slice;
use crate::cache::shared::{CacheBranchId, SharedPageCache};
#[allow(unused_imports)]
use crate::cache::shared::{
    active_count, cached, copies, countable, faulted, identity_at, lemma_faulted, live, load_fails, mapped, open_count,
    page_at, renamed, CacheView, Identity,
};
use crate::cache::store::{readable_len, CacheError, ForkableNodeStore, MapFlags, NodeId};
#[allow(unused_imports)]
use crate::cache::store::{len_fails, prepare_fails, readable};
#[allow(unused_imports)]
use crate::cache::visible::{
    coherent, lemma_looked_at, lemma_page_stored, lemma_paged_in, lemma_visible_page_len, lemma_written_nothing,
    lemma_written_through_twice, page_start, page_stored, paged_in, pages_in, reached, seen_byte, visible_page, written_through,
};
#[allow(unused_imports)]
use crate::io::IoError;

verus! {

/// Whether every branch of a coherent cache still sees what it saw.
pub open spec fn seen_alike<S: ForkableNodeStore>(v: CacheView<Identity<S>>, w: CacheView<Identity<S>>) -> bool {
    coherent::<S>(v) ==> {
        &&& coherent::<S>(w)
        &&& forall|x: u64, n: NodeId, p: u64| #![trigger visible_page::<S>(w, x, n, p)]
            v.branches.contains_key(x) && page_start(p) ==> visible_page::<S>(w, x, n, p) == visible_page::<S>(v, x, n, p)
    }
}

/// Where the page at a position begins.
pub open spec fn page_floor(position: int) -> u64 {
    (position / 4096 * 4096) as u64
}

/// How many pages a range of `len` bytes at `offset` reaches.
pub open spec fn pages_reached(offset: int, len: int) -> nat {
    if len <= 0 {
        0
    } else {
        ((offset + len - 1) / 4096 - offset / 4096 + 1) as nat
    }
}

/// Whether `w` is the cache once reading `len` bytes from a file of branch `b` has failed with the
/// store's answer.
pub open spec fn file_read_fails<S: ForkableNodeStore>(
    v: CacheView<Identity<S>>,
    w: CacheView<Identity<S>>,
    b: u64,
    node: NodeId,
    offset: u64,
    len: int,
    error: IoError,
) -> bool {
    let branch = v.branches[b];
    ||| w == v && len_fails::<S>(branch.nodes, branch.identities, node, error)
    ||| exists|count: nat|
        {
            let p = (page_floor(offset as int) + 4096 * count) as u64;
            &&& w == #[trigger] pages_in::<S>(v, b, node, page_floor(offset as int), count)
            &&& count < pages_reached(offset as int, readable(branch.nodes[node], offset as int, len))
            &&& !cached::<S>(w, b, node, p)
            &&& load_fails::<S>(branch, node, p, error)
        }
}

/// Whether `w` is the cache once writing to a file of branch `b` has failed with the store's answer.
pub open spec fn file_write_fails<S: ForkableNodeStore>(
    v: CacheView<Identity<S>>,
    w: CacheView<Identity<S>>,
    b: u64,
    node: NodeId,
    offset: u64,
    data: Seq<u8>,
    error: IoError,
) -> bool {
    let len = data.len() as int;
    let was = v.branches[b];
    let now = w.branches[b];
    &&& {
        ||| w == v && len_fails::<S>(was.nodes, was.identities, node, error)
        ||| {
            &&& offset + len <= was.nodes[node].len()
            &&& exists|p: u64|
                {
                    &&& #[trigger] reached(node, offset as int, len, node, p)
                    &&& load_fails::<S>(now, node, p, error) || prepare_fails::<S>(now.nodes, now.identities, node, p, error)
                }
        }
    }
    &&& exists|count: int| 0 <= count <= len && #[trigger] written_through::<S>(v, w, b, node, offset as int, data.take(count))
}

/// Whether a page that is to be written, and that branch `b` does not have to itself, is mapped.
pub open spec fn page_is_busy<S: ForkableNodeStore>(
    v: CacheView<Identity<S>>,
    w: CacheView<Identity<S>>,
    b: u64,
    node: NodeId,
    offset: u64,
    len: int,
) -> bool {
    exists|p: u64|
        {
            &&& #[trigger] reached(node, offset as int, len, node, p)
            &&& !v.branches[b].exclusive.contains((node, p))
            &&& active_count(v, b, page_at::<S>(w, b, node, p)) > 0
        }
}

impl<S: ForkableNodeStore> SharedPageCache<S> {
    /// Reads from a file of a branch, as far as the file goes.
    pub fn read(&mut self, branch: CacheBranchId, node: NodeId, offset: u64, buf: &mut [u8]) -> (r: Result<usize, CacheError>)
        requires
            old(self).wf(),
            old(self)@.next_page + pages_reached(offset as int, old(buf)@.len() as int) < u64::MAX - 1,
            countable(old(self)@, branch.number()),
        ensures
            final(self).wf(),
            final(buf)@.len() == old(buf)@.len(),
            seen_alike::<S>(old(self)@, final(self)@),
            ({
                let v = old(self)@;
                let b = branch.number();
                let contents = v.branches[b].nodes[node];
                match r {
                    Ok(count) => {
                        &&& v.branches.contains_key(b)
                        &&& v.branches[b].nodes.contains_key(node)
                        &&& count == readable(contents, offset as int, old(buf)@.len() as int)
                        &&& count > 0 ==> open_count(v.branches[b].open, node) > 0
                        &&& final(self)@ == pages_in::<S>(v, b, node, page_floor(offset as int), pages_reached(offset as int, count as int))
                        &&& forall|i: int| 0 <= i < count ==> #[trigger] final(buf)@[i] == seen_byte::<S>(v, b, node, offset + i)
                        &&& forall|i: int| count <= i < old(buf)@.len() ==> #[trigger] final(buf)@[i] == old(buf)@[i]
                    },
                    Err(CacheError::BranchNotFound(number)) => number == b && !v.branches.contains_key(b) && final(self)@ == v,
                    Err(CacheError::NodeNotOpen(closed)) => {
                        &&& closed == node
                        &&& v.branches.contains_key(b)
                        &&& open_count(v.branches[b].open, node) == 0
                        &&& readable(contents, offset as int, old(buf)@.len() as int) > 0
                        &&& final(self)@ == v
                    },
                    Err(CacheError::Io(error)) => {
                        &&& v.branches.contains_key(b)
                        &&& file_read_fails::<S>(v, final(self)@, b, node, offset, old(buf)@.len() as int, error)
                    },
                    Err(_) => false,
                }
            }),
    {
        let ghost v = self@;
        let ghost b = branch.number();
        let ghost given = buf@;
        assert(v == pages_in::<S>(v, b, node, page_floor(offset as int), 0));
        let file_len: u64 = self.node_len(branch, node)?;
        let buf_len: usize = buf.len();
        if offset >= file_len || buf_len == 0 {
            return Ok(0);
        }
        let count: usize = readable_len(file_len, offset, buf_len);
        let end: u64 = offset + count as u64;
        let first: u64 = offset / 4096 * 4096;
        let mut cursor: u64 = offset;
        let ghost mut done: nat = 0;
        while cursor < end
            invariant
                v == old(self)@,
                b == branch.number(),
                given == old(buf)@,
                self@.wf(),
                v.wf(),
                v.branches.contains_key(b),
                v.branches[b].nodes.contains_key(node),
                file_len == v.branches[b].nodes[node].len(),
                self@.branches == v.branches,
                self@.id == v.id,
                self@ == pages_in::<S>(v, b, node, first, done),
                self@.next_page <= v.next_page + done,
                v.next_page + pages_reached(offset as int, given.len() as int) < u64::MAX - 1,
                countable(v, b),
                seen_alike::<S>(v, self@),
                forall|n: NodeId, p: u64| #![trigger visible_page::<S>(self@, b, n, p)] page_start(p) ==> visible_page::<S>(self@, b, n, p) == visible_page::<S>(v, b, n, p),
                first == offset / 4096 * 4096,
                end == offset + count,
                count == readable(v.branches[b].nodes[node], offset as int, given.len() as int),
                0 < count <= given.len(),
                offset <= cursor <= end,
                cursor == end || cursor == offset && done == 0 || cursor == first + 4096 * done,
                done == (if cursor == end {
                    pages_reached(offset as int, count as int)
                } else {
                    (cursor / 4096 - offset / 4096) as nat
                }),
                buf@.len() == given.len(),
                forall|i: int| 0 <= i < cursor - offset ==> #[trigger] buf@[i] == seen_byte::<S>(v, b, node, offset + i),
                forall|i: int| cursor - offset <= i < given.len() ==> #[trigger] buf@[i] == given[i],
                done > 0 ==> open_count(v.branches[b].open, node) > 0,
            decreases end - cursor,
        {
            let page_offset: u64 = cursor / 4096 * 4096;
            let within: u64 = cursor - page_offset;
            let room: u64 = 4096 - within;
            let rest: u64 = end - cursor;
            let chunk: usize = if room < rest {
                room as usize
            } else {
                rest as usize
            };
            let at: usize = (cursor - offset) as usize;
            let ghost held_before = self@;
            let ghost read_before = buf@;
            assert(page_offset == first + 4096 * done);
            let mapping = match self.map_page(branch, node, page_offset, MapFlags::read()) {
                Ok(mapping) => mapping,
                Err(error) => {
                    assert(self@ == held_before);
                    assert(self@ == pages_in::<S>(v, b, node, page_floor(offset as int), done));
                    assert(done < pages_reached(offset as int, count as int));
                    assert((page_floor(offset as int) + 4096 * done) as u64 == page_offset);
                    return Err(error);
                },
            };
            let ghost held = self@;
            let ghost identities = choose|identities: int| held == #[trigger] mapped::<S>(held_before, b, node, page_offset, MapFlags { readable: true, writable: false }, identities);
            proof {
                lemma_looked_at::<S>(held_before, b, node, page_offset, identities);
                lemma_paged_in::<S>(held_before, b, node, page_offset);
                lemma_visible_page_len::<S>(held_before, b, node, page_offset);
                lemma_faulted::<S>(held_before, b, node, page_offset);
            }
            assert(live(held, mapping@));
            if let Some(bytes) = self.read_mapped(&mapping, within as usize, chunk) {
                lay_over_slice(buf, at, bytes.as_slice());
                assert forall|i: int| 0 <= i < cursor + chunk - offset implies #[trigger] buf@[i] == seen_byte::<S>(v, b, node, offset + i) by {
                    if i >= at {
                        assert((offset + i) / 4096 * 4096 == page_offset);
                        assert((offset + i) % 4096 == within + (i - at));
                        assert(buf@[i] == bytes@[i - at]);
                        assert(visible_page::<S>(held_before, b, node, page_offset) == visible_page::<S>(v, b, node, page_offset));
                    } else {
                        assert(buf@[i] == read_before[i]);
                    }
                }
                assert forall|i: int| cursor + chunk - offset <= i < given.len() implies #[trigger] buf@[i] == given[i] by {
                    assert(buf@[i] == read_before[i]);
                }
            }
            let closed = self.unmap(branch, mapping);
            assert(self@ == paged_in::<S>(held_before, b, node, page_offset));
            cursor = cursor + chunk as u64;
            proof {
                assert((first + 4096 * done) as u64 == page_offset);
                done = done + 1;
                assert(self@ == pages_in::<S>(v, b, node, first, done));
                assert forall|n: NodeId, p: u64| #![trigger visible_page::<S>(self@, b, n, p)] page_start(p) implies visible_page::<S>(self@, b, n, p) == visible_page::<S>(v, b, n, p) by {
                    assert(visible_page::<S>(held_before, b, n, p) == visible_page::<S>(v, b, n, p));
                }
                if coherent::<S>(v) {
                    assert forall|x: u64, n: NodeId, p: u64| #![trigger visible_page::<S>(self@, x, n, p)] v.branches.contains_key(x) && page_start(p) implies visible_page::<S>(
                        self@,
                        x,
                        n,
                        p,
                    ) == visible_page::<S>(v, x, n, p) by {
                        assert(visible_page::<S>(held_before, x, n, p) == visible_page::<S>(v, x, n, p));
                    }
                }
            }
        }
        Ok(count)
    }
}

/// Bringing a page in writes nothing.
proof fn lemma_faulted_writes_nothing<S: ForkableNodeStore>(v: CacheView<Identity<S>>, b: u64, node: NodeId, page: u64, offset: int)
    requires
        v.wf(),
        v.branches.contains_key(b),
        v.next_page < u64::MAX - 1,
        page_start(page),
        identity_at::<S>(v, b, node, page / 4096) is Some,
    ensures
        written_through::<S>(v, faulted::<S>(v, b, node, page), b, node, offset, Seq::empty()),
{
    let loaded = faulted::<S>(v, b, node, page);
    let looked = paged_in::<S>(v, b, node, page);
    lemma_paged_in::<S>(v, b, node, page);
    assert forall|x: u64, n: NodeId, p: u64| #[trigger] visible_page::<S>(loaded, x, n, p) == visible_page::<S>(looked, x, n, p) by {}
    if coherent::<S>(v) {
        assert forall|x: u64, y: u64, n: NodeId, p: u64|
            #![trigger visible_page::<S>(loaded, x, n, p), visible_page::<S>(loaded, y, n, p)]
            loaded.branches.contains_key(x) && loaded.branches.contains_key(y) && page_start(p) && identity_at::<S>(loaded, x, n, p / 4096) is Some
                && identity_at::<S>(loaded, x, n, p / 4096) == identity_at::<S>(loaded, y, n, p / 4096) implies visible_page::<S>(loaded, x, n, p)
            == visible_page::<S>(loaded, y, n, p) by {
            assert(visible_page::<S>(looked, x, n, p) == visible_page::<S>(looked, y, n, p));
        }
    }
}

impl<S: ForkableNodeStore> SharedPageCache<S> {
    /// Writes to a file of a branch, within the file's length.
    pub fn write(&mut self, branch: CacheBranchId, node: NodeId, offset: u64, buf: &[u8]) -> (r: Result<usize, CacheError>)
        requires
            old(self).wf(),
            old(self)@.next_page + 2 * pages_reached(offset as int, buf@.len() as int) < u64::MAX - 1,
            countable(old(self)@, branch.number()),
        ensures
            final(self).wf(),
            ({
                let v = old(self)@;
                let b = branch.number();
                let len = buf@.len() as int;
                let contents = v.branches[b].nodes[node];
                match r {
                    Ok(count) => {
                        &&& count == len
                        &&& v.branches.contains_key(b)
                        &&& v.branches[b].nodes.contains_key(node)
                        &&& offset + len <= contents.len() && offset + len <= u64::MAX
                        &&& len > 0 ==> open_count(v.branches[b].open, node) > 0
                        &&& written_through::<S>(v, final(self)@, b, node, offset as int, buf@)
                    },
                    Err(CacheError::InvalidMapping(why)) => {
                        &&& final(self)@ == v
                        &&& if offset + len > u64::MAX {
                            why == "write range overflow"
                        } else {
                            v.branches.contains_key(b) && offset + len > contents.len() && why == "write extends beyond file"
                        }
                    },
                    Err(CacheError::BranchNotFound(number)) => {
                        &&& number == b
                        &&& !v.branches.contains_key(b)
                        &&& offset + len <= u64::MAX
                        &&& final(self)@ == v
                    },
                    Err(CacheError::NodeNotOpen(closed)) => {
                        &&& closed == node
                        &&& v.branches.contains_key(b)
                        &&& open_count(v.branches[b].open, node) == 0
                        &&& 0 < len && offset + len <= contents.len()
                        &&& final(self)@ == v
                    },
                    Err(CacheError::Io(error)) => {
                        &&& v.branches.contains_key(b)
                        &&& offset + len <= u64::MAX
                        &&& file_write_fails::<S>(v, final(self)@, b, node, offset, buf@, error)
                    },
                    Err(CacheError::PageBusy) => {
                        &&& v.branches.contains_key(b)
                        &&& offset + len <= contents.len()
                        &&& page_is_busy::<S>(v, final(self)@, b, node, offset, len)
                        &&& exists|count: int|
                            0 <= count <= len && #[trigger] written_through::<S>(v, final(self)@, b, node, offset as int, buf@.take(count))
                    },
                    Err(_) => false,
                }
            }),
    {
        let ghost v = self@;
        let ghost b = branch.number();
        let buf_len: usize = buf.len();
        proof {
            lemma_written_nothing::<S>(v, b, node, offset as int);
            assert(buf@.take(0) =~= Seq::<u8>::empty());
        }
        let end: u64 = match offset.checked_add(buf_len as u64) {
            Some(end) => end,
            None => {
                return Err(CacheError::InvalidMapping("write range overflow"));
            },
        };
        let file_len: u64 = match self.node_len(branch, node) {
            Ok(file_len) => file_len,
            Err(error) => {
                assert(written_through::<S>(v, self@, b, node, offset as int, buf@.take(0)));
                return Err(error);
            },
        };
        if end > file_len {
            return Err(CacheError::InvalidMapping("write extends beyond file"));
        }
        let first: u64 = offset / 4096 * 4096;
        let mut cursor: u64 = offset;
        let ghost mut done: nat = 0;
        while cursor < end
            invariant
                v == old(self)@,
                b == branch.number(),
                buf_len == buf@.len(),
                self@.wf(),
                v.wf(),
                v.branches.contains_key(b),
                v.branches[b].nodes.contains_key(node),
                end <= v.branches[b].nodes[node].len(),
                self@.next_page <= v.next_page + 2 * done,
                v.next_page + 2 * pages_reached(offset as int, buf@.len() as int) < u64::MAX - 1,
                countable(v, b),
                first == offset / 4096 * 4096,
                end == offset + buf_len,
                offset <= cursor <= end,
                cursor == end || cursor == offset && done == 0 || cursor == first + 4096 * done,
                done == (if cursor == end {
                    pages_reached(offset as int, buf_len as int)
                } else {
                    (cursor / 4096 - offset / 4096) as nat
                }),
                cursor == offset || cursor == end || cursor % 4096 == 0,
                cursor == offset && offset < end ==> self@ == v,
                written_through::<S>(v, self@, b, node, offset as int, buf@.take(cursor - offset)),
                cursor > offset ==> open_count(v.branches[b].open, node) > 0,
            decreases end - cursor,
        {
            let page_offset: u64 = cursor / 4096 * 4096;
            let within: u64 = cursor - page_offset;
            let room: u64 = 4096 - within;
            let rest: u64 = end - cursor;
            let chunk: usize = if room < rest {
                room as usize
            } else {
                rest as usize
            };
            let at: usize = (cursor - offset) as usize;
            let ghost was = self@;
            let ghost so_far = buf@.take(at as int);
            assert(was.branches.dom().contains(b));
            let mapping = match self.map_page(branch, node, page_offset, MapFlags::read_write()) {
                Ok(mapping) => mapping,
                Err(error) => {
                    proof {
                        if self@ != was {
                            lemma_faulted_writes_nothing::<S>(was, b, node, page_offset, cursor as int);
                            lemma_written_through_twice::<S>(v, was, self@, b, node, offset as int, so_far, Seq::empty());
                            assert(so_far + Seq::<u8>::empty() =~= so_far);
                        }
                        assert(written_through::<S>(v, self@, b, node, offset as int, buf@.take(at as int)));
                        assert(reached(node, offset as int, buf_len as int, node, page_offset));
                        assert(self@.branches == was.branches);
                        if error is PageBusy {
                            assert(!reached(node, offset as int, at as int, node, page_offset));
                            assert(was.branches[b].exclusive.contains((node, page_offset)) <==> v.branches[b].exclusive.contains((node, page_offset)));
                        }
                    }
                    return Err(error);
                },
            };
            let ghost held = self@;
            let ghost flags = MapFlags { readable: true, writable: true };
            let ghost identities = choose|identities: int|
                {
                    &&& copies(was, b, node, page_offset, flags) ==> renamed::<S>(was.branches[b].identities, identities, node, page_offset / 4096)
                    &&& held == #[trigger] mapped::<S>(was, b, node, page_offset, flags, identities)
                };
            let piece = vstd::slice::slice_subrange(buf, at, at + chunk);
            assert(held.branches[b].active.contains_key(mapping@.page));
            assert(live(held, mapping@));
            let stored = self.write_mapped(&mapping, within as usize, piece);
            let closed = self.unmap(branch, mapping);
            assert(self@ == page_stored::<S>(was, b, node, page_offset, identities, within as int, piece@));
            proof {
                lemma_page_stored::<S>(was, b, node, page_offset, identities, within as int, piece@);
                lemma_written_through_twice::<S>(v, was, self@, b, node, offset as int, so_far, piece@);
                assert(so_far + piece@ =~= buf@.take(at + chunk));
                lemma_faulted::<S>(was, b, node, page_offset);
                done = done + 1;
            }
            cursor = cursor + chunk as u64;
        }
        assert(buf@.take(buf_len as int) =~= buf@);
        Ok(buf_len)
    }
}

} // verus!
