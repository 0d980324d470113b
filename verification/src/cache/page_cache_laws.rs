//! What mapping, syncing and unmapping come to, byte by byte.

use vstd::prelude::*;

#[allow(unused_imports)]
use crate::cache::page_cache::{
    page_count, page_settled, page_stored_back, pages_stored_back, range_held, range_refusal, range_released, released_throughout, writable_pages,
    FileView, PageCache, RangeView,
};
#[allow(unused_imports)]
use crate::cache::store::{file_written, page_of, readable, synced_bytes, MapFlags, NodeId, NodeStore};

verus! {

/// A file that is written to holds the bytes written where they were written and all others where they
/// were; where the write begins behind the file's end, zeros come between.
pub proof fn written_file_holds_the_bytes(contents: Seq<u8>, offset: int, data: Seq<u8>, position: int)
    requires
        0 <= offset,
        0 <= position,
    ensures
        ({
            let after = file_written(contents, offset, data);
            &&& data.len() == 0 ==> after == contents
            &&& contents.len() <= after.len()
            &&& data.len() > 0 ==> offset + data.len() <= after.len()
            &&& after.len() == contents.len() || after.len() == offset + data.len()
            &&& offset <= position < offset + data.len() ==> after[position] == data[position - offset]
            &&& !(offset <= position < offset + data.len()) && position < contents.len() ==> after[position] == contents[position]
            &&& contents.len() <= position < offset && position < after.len() ==> after[position] == 0
        }),
{
}

/// A page of a file is the file's bytes from the page's start on, and zeros behind the file's end; a read
/// goes as far as the file and no farther; what is stored of a page is what lies within the file.
pub proof fn pages_and_reads_end_with_the_file(contents: Seq<u8>, offset: int, len: int, i: int)
    requires
        0 <= offset,
        0 <= len,
        0 <= i < 4096,
    ensures
        page_of(contents, offset).len() == 4096,
        offset + i < contents.len() ==> page_of(contents, offset)[i] == contents[offset + i],
        offset + i >= contents.len() ==> page_of(contents, offset)[i] == 0,
        0 <= readable(contents, offset, len) <= len,
        readable(contents, offset, len) == len <==> len == 0 || offset + len <= contents.len(),
        readable(contents, offset, len) > 0 ==> offset + readable(contents, offset, len) <= contents.len(),
        readable(contents, offset, len) < len ==> offset + readable(contents, offset, len) == contents.len() || offset >= contents.len()
            && readable(contents, offset, len) == 0,
        offset < contents.len() ==> {
            let stored = synced_bytes(page_of(contents, offset), offset, contents.len() as int);
            &&& stored == contents.subrange(offset, offset + stored.len())
            &&& stored.len() == 4096 || offset + stored.len() == contents.len()
        },
{
    if offset < contents.len() {
        let stored = synced_bytes(page_of(contents, offset), offset, contents.len() as int);
        assert(stored =~= contents.subrange(offset, offset + stored.len()));
    }
}

/// Mapping a range maps just the pages in which one of its bytes lies: each once more than before, with
/// the flags asked for besides those it had. What is seen through the mapping is what was cached where
/// that was up to date, and the file otherwise.
pub proof fn mapping_covers_the_range(f: FileView, contents: Seq<u8>, offset: u64, len: u64, flags: MapFlags, position: int, p: u64)
    requires
        f.wf(),
        range_refusal(true, 0, offset, len, flags) is None,
        forall|q: u64| #[trigger] f.pages.contains_key(q) ==> f.pages[q].rc < usize::MAX,
    ensures
        ({
            let w = f.range_mapped(contents, offset, page_count(len), flags);
            let at = (position / 4096 * 4096) as u64;
            &&& offset <= position < offset + len ==> {
                &&& w.pages.contains_key(at)
                &&& w.current(at)
                &&& w.pages[at].rc == (if f.pages.contains_key(at) { f.pages[at].rc + 1 } else { 1 })
                &&& flags.readable ==> w.pages[at].flags.readable
                &&& flags.writable ==> w.pages[at].flags.writable
                &&& !f.pages.contains_key(at) ==> w.pages[at].flags == flags
                &&& f.pages.contains_key(at) ==> (w.pages[at].flags.writable <==> flags.writable || f.pages[at].flags.writable)
                &&& w.cached_byte(position) == (if f.current(at) {
                    f.cached_byte(position)
                } else if position < contents.len() {
                    contents[position]
                } else {
                    0
                })
            }
            &&& p + 4096 <= offset || offset + len <= p ==> {
                &&& w.pages.contains_key(p) <==> f.pages.contains_key(p)
                &&& f.pages.contains_key(p) ==> w.pages[p] == f.pages[p]
            }
            &&& w.open_fds == f.open_fds && w.version == f.version
        }),
{
    if offset <= position < offset + len {
        let at = (position / 4096 * 4096) as u64;
        assert(offset <= at < offset + 4096 * page_count(len));
        assert(at + position % 4096 == position);
    }
}

/// A range can be mapped if and only if it is not empty, begins with a page, asks for some access and
/// does not reach past the last page there can be, and the node is open.
pub proof fn ranges_are_refused_only_so(open: bool, node: NodeId, offset: u64, len: u64, flags: MapFlags)
    ensures
        range_refusal(open, node, offset, len, flags) is None <==> {
            &&& open
            &&& len > 0
            &&& offset % 4096 == 0
            &&& flags.readable || flags.writable
            &&& offset + (len + 4095) / 4096 * 4096 <= 0xffff_ffff_ffff_ffff
        },
        page_count(len) * 4096 >= len,
        page_count(len) * 4096 < len + 4096,
{
}

/// What a write to a file leaves is read back, from the cache as from the store; what lies beside it is
/// read as before.
pub proof fn reads_find_the_write(f: FileView, contents: Seq<u8>, offset: int, data: Seq<u8>, position: int)
    requires
        f.wf(),
        0 <= offset,
        0 <= position <= u64::MAX,
        offset <= position < offset + data.len(),
    ensures
        ({
            let w = f.updated(offset, data);
            let at = (position / 4096 * 4096) as u64;
            &&& file_written(contents, offset, data)[position] == data[position - offset]
            &&& f.pages.contains_key(at) ==> w.current(at) && w.cached_byte(position) == data[position - offset]
            &&& w.pages.contains_key(at) <==> f.pages.contains_key(at)
        }),
{
    let at = (position / 4096 * 4096) as u64;
    assert(at == position / 4096 * 4096);
    if f.pages.contains_key(at) {
        assert(f.updated(offset, data).pages.contains_key(at));
    }
}

/// A write makes every cached page that it does not reach out of date, so that it is read anew, and
/// changes neither how often pages are mapped nor for what. Versions follow each other and begin again at
/// zero.
pub proof fn write_ages_other_pages(f: FileView, offset: int, data: Seq<u8>, p: u64)
    requires
        f.wf(),
        f.pages.contains_key(p),
        f.pages[p].version == f.version,
        0 <= offset,
    ensures
        ({
            let w = f.updated(offset, data);
            &&& w.pages[p].rc == f.pages[p].rc && w.pages[p].flags == f.pages[p].flags
            &&& w.open_fds == f.open_fds && w.size == f.size
            &&& w.current(p) <==> data.len() > 0 && p < offset + data.len() && offset < p + 4096
            &&& w.version == (f.version + 1) % 0x1_0000_0000_0000_0000
        }),
{
    assert(f.updated(offset, data).pages.contains_key(p));
}

/// What stands at a position of the file once pages are written back.
spec fn is_stored(f: FileView, contents: Seq<u8>, state: (FileView, Seq<u8>), position: int, there: bool) -> bool {
    let at = (position / 4096 * 4096) as u64;
    &&& state.1.len() == contents.len()
    &&& state.1[position] == (if there { f.pages[at].bytes[position % 4096] } else { contents[position] })
}

proof fn lemma_page_stored_back(state: (FileView, Seq<u8>), p: u64, position: int)
    requires
        state.0.wf(),
        state.0.pages.contains_key(p),
        0 <= position < state.1.len() <= u64::MAX,
    ensures
        ({
            let next = page_stored_back(state, p);
            &&& next.0.wf()
            &&& next.0.pages.dom() == state.0.pages.dom()
            &&& next.0.version == state.0.version && next.0.open_fds == state.0.open_fds
            &&& forall|q: u64| #[trigger] state.0.pages.contains_key(q) ==> next.0.pages[q].bytes == state.0.pages[q].bytes && next.0.pages[q].rc
                == state.0.pages[q].rc && next.0.pages[q].flags == state.0.pages[q].flags
            &&& next.1.len() == state.1.len()
            &&& next.1[position] == (if p == position / 4096 * 4096 {
                state.0.pages[p].bytes[position % 4096]
            } else {
                state.1[position]
            })
        }),
{
    assert(p % 4096 == 0);
    let next = page_stored_back(state, p);
    assert(next.0.pages.dom() =~= state.0.pages.dom());
    if p < state.1.len() {
        let data = state.0.pages[p].bytes.take(if state.1.len() - p < 4096 { state.1.len() - p } else { 4096 });
        written_file_holds_the_bytes(state.1, p as int, data, position);
        if p == position / 4096 * 4096 {
            assert(p <= position < p + data.len());
        } else {
            assert(!(p <= position < p + 4096));
        }
    }
}

proof fn lemma_pages_stored_back(f: FileView, contents: Seq<u8>, pages: Seq<u64>, count: int, position: int)
    requires
        f.wf(),
        writable_pages(f, pages),
        0 <= count <= pages.len(),
        0 <= position < contents.len() <= u64::MAX,
    ensures
        ({
            let state = pages_stored_back(f, contents, pages, count);
            let at = (position / 4096 * 4096) as u64;
            &&& state.0.wf()
            &&& state.0.pages.dom() == f.pages.dom()
            &&& forall|q: u64| #[trigger] f.pages.contains_key(q) ==> state.0.pages[q].bytes == f.pages[q].bytes && state.0.pages[q].rc == f.pages[q].rc
                && state.0.pages[q].flags == f.pages[q].flags
            &&& is_stored(f, contents, state, position, exists|i: int| 0 <= i < count && #[trigger] pages[i] == at)
        }),
    decreases count,
{
    let at = (position / 4096 * 4096) as u64;
    if count > 0 {
        lemma_pages_stored_back(f, contents, pages, count - 1, position);
        let before = pages_stored_back(f, contents, pages, count - 1);
        let p = pages[count - 1];
        assert(pages.contains(p));
        assert(f.pages.contains_key(p));
        assert(before.0.pages.contains_key(p));
        lemma_page_stored_back(before, p, position);
        assert(p % 4096 == 0);
        assert(at == position / 4096 * 4096);
        if p == at {
            assert(pages[count - 1] == at);
        } else if exists|i: int| 0 <= i < count && #[trigger] pages[i] == at {
            let i = choose|i: int| 0 <= i < count && #[trigger] pages[i] == at;
            assert(i < count - 1);
        }
    }
}

/// Syncing a node stores, up to the end of the file, what is cached of each page that is mapped writable,
/// and nothing else; what is cached and how often it is mapped stays as it is.
pub proof fn sync_stores_writable_pages(f: FileView, contents: Seq<u8>, pages: Seq<u64>, position: int)
    requires
        f.wf(),
        writable_pages(f, pages),
        0 <= position < contents.len() <= u64::MAX,
    ensures
        ({
            let state = pages_stored_back(f, contents, pages, pages.len() as int);
            let at = (position / 4096 * 4096) as u64;
            &&& state.1.len() == contents.len()
            &&& state.1[position] == (if f.pages.contains_key(at) && f.pages[at].flags.writable {
                f.cached_byte(position)
            } else {
                contents[position]
            })
            &&& state.0.pages.dom() == f.pages.dom()
            &&& forall|q: u64| #[trigger] f.pages.contains_key(q) ==> state.0.pages[q].bytes == f.pages[q].bytes && state.0.pages[q].rc == f.pages[q].rc
                && state.0.pages[q].flags == f.pages[q].flags
        }),
{
    lemma_pages_stored_back(f, contents, pages, pages.len() as int, position);
    let at = (position / 4096 * 4096) as u64;
    assert(pages.contains(at) <==> f.pages.contains_key(at) && f.pages[at].flags.writable);
    if pages.contains(at) {
        let i = choose|i: int| 0 <= i < pages.len() && pages[i] == at;
        assert(pages[i] == at);
    }
}

#[verifier::spinoff_prover]
#[verifier::rlimit(30)]
proof fn lemma_range_released(f: FileView, contents: Seq<u8>, offset: u64, count: int, position: int)
    requires
        f.wf(),
        0 <= count,
        offset % 4096 == 0,
        offset + 4096 * count <= u64::MAX,
        released_throughout(f, contents, offset, count),
        0 <= position < contents.len() <= u64::MAX,
    ensures
        ({
            let state = range_released(f, contents, offset, count);
            let at = (position / 4096 * 4096) as u64;
            &&& state.0.wf()
            &&& state.0.pages.dom() == f.pages.dom()
            &&& state.0.open_fds == f.open_fds
            &&& forall|q: u64| #[trigger] f.pages.contains_key(q) ==> {
                &&& state.0.pages[q].bytes == f.pages[q].bytes
                &&& state.0.pages[q].flags == f.pages[q].flags
                &&& state.0.pages[q].rc == (if offset <= q < offset + 4096 * count {
                    f.pages[q].rc - 1
                } else {
                    f.pages[q].rc as int
                })
            }
            &&& forall|i: int| 0 <= i < count ==> f.pages.contains_key(#[trigger] ((offset + 4096 * i) as u64)) && f.pages[(offset + 4096 * i) as u64].rc > 0
            &&& is_stored(f, contents, state, position, offset <= at < offset + 4096 * count && f.pages[at].flags.writable)
        }),
    decreases count,
{
    let at = (position / 4096 * 4096) as u64;
    assert(at == position / 4096 * 4096);
    if count > 0 {
        assert(released_throughout(f, contents, offset, count - 1)) by {
            assert forall|i: int| 0 <= i < count - 1 implies !crate::cache::page_cache::page_stale(
                #[trigger] range_released(f, contents, offset, i),
                (offset + 4096 * i) as u64,
            ) by {}
        }
        lemma_range_released(f, contents, offset, count - 1, position);
        let before = range_released(f, contents, offset, count - 1);
        let p = (offset + 4096 * (count - 1)) as u64;
        assert(!crate::cache::page_cache::page_stale(before, p));
        assert(before.0.pages.contains_key(p));
        assert(f.pages.contains_key(p));
        lemma_page_stored_back(before, p, position);
        let settled = page_settled(before, p);
        let after = range_released(f, contents, offset, count);
        assert(after.0.pages.dom() =~= f.pages.dom());
        assert forall|q: u64| #[trigger] f.pages.contains_key(q) implies {
            &&& after.0.pages[q].bytes == f.pages[q].bytes
            &&& after.0.pages[q].flags == f.pages[q].flags
            &&& after.0.pages[q].rc == (if offset <= q < offset + 4096 * count {
                f.pages[q].rc - 1
            } else {
                f.pages[q].rc as int
            })
        } by {
            assert(q % 4096 == 0);
            if q != p && offset <= q < offset + 4096 * count {
                assert(q < offset + 4096 * (count - 1));
            }
        }
        assert(before.0.pages[p].rc == f.pages[p].rc);
        assert forall|i: int| 0 <= i < count implies f.pages.contains_key(#[trigger] ((offset + 4096 * i) as u64)) && f.pages[(offset + 4096 * i) as u64].rc
            > 0 by {
            if i == count - 1 {
                assert((offset + 4096 * i) as u64 == p);
            }
        }
        if at != p && offset <= at < offset + 4096 * count {
            assert(at < offset + 4096 * (count - 1));
        }
    }
}

/// Giving up the mapping of a range takes back one mapping of each of its pages, and of no other; what is
/// cached of those that are mapped writable is stored, up to the end of the file.
pub proof fn unmapping_stores_the_range(f: FileView, contents: Seq<u8>, offset: u64, count: int, position: int, p: u64)
    requires
        f.wf(),
        0 <= count,
        offset % 4096 == 0,
        offset + 4096 * count <= u64::MAX,
        released_throughout(f, contents, offset, count),
        0 <= position < contents.len() <= u64::MAX,
        f.pages.contains_key(p),
    ensures
        ({
            let state = range_released(f, contents, offset, count);
            let at = (position / 4096 * 4096) as u64;
            &&& state.1.len() == contents.len()
            &&& state.1[position] == (if offset <= position < offset + 4096 * count && f.pages[at].flags.writable {
                f.cached_byte(position)
            } else {
                contents[position]
            })
            &&& state.0.pages[p].bytes == f.pages[p].bytes
            &&& state.0.pages[p].rc == (if offset <= p < offset + 4096 * count { f.pages[p].rc - 1 } else { f.pages[p].rc as int })
            &&& state.0.open_fds == f.open_fds
        }),
{
    lemma_range_released(f, contents, offset, count, position);
    let at = position / 4096 * 4096;
    assert(offset <= at < offset + 4096 * count <==> offset <= position < offset + 4096 * count);
}

/// A mapped range can be reached if and only if the access lies within it, the cache is the one that gave
/// it out, and the page of each byte is there.
pub proof fn reachable_bytes_have_their_pages<S: NodeStore>(cache: PageCache<S>, mapping: RangeView, offset: int, len: int)
    requires
        0 <= offset,
        0 < len,
    ensures
        range_held(cache, mapping, offset, len) <==> {
            &&& mapping.cache_id == cache.id()
            &&& offset + len <= mapping.len
            &&& mapping.offset + mapping.len <= u64::MAX
            &&& cache.files().contains_key(mapping.node)
            &&& forall|a: int| #![trigger cache.files()[mapping.node].pages.contains_key((a / 4096 * 4096) as u64)]
                mapping.offset + offset <= a < mapping.offset + offset + len ==> cache.files()[mapping.node].pages.contains_key(
                    (a / 4096 * 4096) as u64,
                )
        },
{
    let first = mapping.offset + offset;
    let pages = cache.files()[mapping.node].pages;
    if range_held(cache, mapping, offset, len) {
        assert forall|a: int| #![trigger pages.contains_key((a / 4096 * 4096) as u64)] first <= a < first + len implies pages.contains_key(
            (a / 4096 * 4096) as u64,
        ) by {
            let q = (a / 4096 * 4096) as u64;
            assert(q == a / 4096 * 4096);
            assert(first / 4096 * 4096 <= q <= (first + len - 1) / 4096 * 4096);
        }
    }
    if mapping.offset + mapping.len <= u64::MAX && offset + len <= mapping.len && (forall|a: int| #![trigger pages.contains_key((a / 4096 * 4096) as u64)]
        first <= a < first + len ==> pages.contains_key((a / 4096 * 4096) as u64)) {
        assert forall|q: u64| q % 4096 == 0 && first / 4096 * 4096 <= q <= (first + len - 1) / 4096 * 4096 implies #[trigger] pages.contains_key(q) by {
            let a = if q < first {
                first
            } else {
                q as int
            };
            assert(first <= a < first + len);
            assert((a / 4096 * 4096) as u64 == q);
        }
    }
}

/// A node is in use while it is open, or while one of its pages is mapped; not before and not after.
pub proof fn nodes_are_in_use_while_open_or_mapped(f: FileView, p: u64)
    ensures
        !FileView::fresh().in_use(),
        f.open_fds > 0 ==> f.in_use(),
        f.pages.contains_key(p) && f.pages[p].rc > 0 ==> f.in_use(),
        f.open_fds == 0 && (forall|q: u64| #[trigger] f.pages.contains_key(q) ==> f.pages[q].rc == 0) ==> !f.in_use(),
{
}

/// A page that was stored is up to date: it counts as written with the file as it is, and is otherwise as
/// it was, as are all other pages. One past the end of the file is left alone.
pub proof fn stored_pages_are_current(f: FileView, contents: Seq<u8>, p: u64, q: u64)
    requires
        f.pages.contains_key(p),
    ensures
        ({
            let (g, stored) = page_stored_back((f, contents), p);
            &&& p < contents.len() ==> {
                &&& g.current(p)
                &&& g.pages[p].bytes == f.pages[p].bytes
                &&& g.pages[p].rc == f.pages[p].rc
                &&& g.pages[p].flags == f.pages[p].flags
            }
            &&& p >= contents.len() ==> g == f && stored == contents
            &&& q != p ==> (g.pages.contains_key(q) <==> f.pages.contains_key(q))
            &&& q != p && f.pages.contains_key(q) ==> g.pages[q] == f.pages[q]
            &&& g.size == f.size && g.version == f.version && g.open_fds == f.open_fds
        }),
{
}

/// A file grows to the larger of its size and the one given, and is otherwise as it was.
pub proof fn files_grow_only(f: FileView, size: u64)
    ensures
        f.size <= f.grown(size as int).size,
        size <= f.grown(size as int).size,
        f.grown(size as int).size == f.size || f.grown(size as int).size == size,
        f.grown(size as int).pages == f.pages,
        f.grown(size as int).version == f.version,
        f.grown(size as int).open_fds == f.open_fds,
{
}

/// Writing through a mapping changes bytes and nothing else: how often a page is mapped, for what and of
/// which version it is all stay.
pub proof fn mapped_writes_change_bytes_only(f: FileView, offset: int, data: Seq<u8>, p: u64)
    ensures
        ({
            let w = f.overlaid(offset, data);
            &&& w.pages.contains_key(p) <==> f.pages.contains_key(p)
            &&& f.pages.contains_key(p) ==> {
                &&& w.pages[p].rc == f.pages[p].rc
                &&& w.pages[p].flags == f.pages[p].flags
                &&& w.pages[p].version == f.pages[p].version
            }
            &&& w.size == f.size && w.version == f.version && w.open_fds == f.open_fds
        }),
{
}

/// A page that is mapped twice may be used in every way in which one of the two may, and in no other.
pub proof fn flags_add_up(a: MapFlags, b: MapFlags)
    ensures
        a.union_spec(b).readable <==> a.readable || b.readable,
        a.union_spec(b).writable <==> a.writable || b.writable,
{
}

/// Opening a node counts it once more, closing it once less; nothing else about it changes, so closing
/// undoes opening.
pub proof fn closing_undoes_opening(f: FileView)
    requires
        f.open_fds < usize::MAX,
    ensures
        f.opened().open_fds == f.open_fds + 1,
        f.opened().closed() == f,
        f.opened().pages == f.pages && f.opened().size == f.size && f.opened().version == f.version,
        f.open_fds > 0 ==> f.closed().open_fds == f.open_fds - 1 && f.closed().pages == f.pages && f.closed().size == f.size && f.closed().version
            == f.version,
{
}

} // verus!
