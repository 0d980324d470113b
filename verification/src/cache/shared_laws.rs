//! What operations on a shared cache come to, page by page and byte by byte.

use vstd::prelude::*;

use crate::cache::dirty::PageKey;
#[allow(unused_imports)]
use crate::cache::dirty::dirty_pages;
#[allow(unused_imports)]
use crate::cache::files::{page_floor, pages_reached};
use crate::cache::laws::reads_what_it_wrote;
#[allow(unused_imports)]
use crate::cache::shared::{
    active_count, branch_pages, branch_removed, cache_forked, cached, copied, copies, countable, faulted, identity_at, live, map_fails, map_refusal,
    map_succeeds, mapped, open_count, page_at, page_written, pages_synced, renamed, sees, sync_ends, unmap_refusal, unmapped, BranchView, CacheView,
    Identity, MappingView,
};
#[allow(unused_imports)]
use crate::cache::store::{identity_of, CacheError, ForkableNodeStore, MapFlags, NodeId};
#[allow(unused_imports)]
use crate::cache::visible::{page_start, pages_in, seen_byte, seen_bytes, visible_page, written_through};

verus! {

/// A write to a file marks each page in which one of its bytes lies as dirty and as the branch's own, and
/// leaves the marks of all other pages as they were.
pub proof fn written_pages_are_marked<S: ForkableNodeStore>(
    v: CacheView<Identity<S>>,
    w: CacheView<Identity<S>>,
    b: u64,
    node: NodeId,
    offset: u64,
    data: Seq<u8>,
    address: int,
    k: PageKey,
)
    requires
        offset + data.len() <= u64::MAX,
        written_through::<S>(v, w, b, node, offset as int, data),
    ensures
        offset <= address < offset + data.len() ==> {
            let page: PageKey = (node, (address / 4096 * 4096) as u64);
            &&& w.branches[b].dirty.contains_key(page) && w.branches[b].dirty[page]
            &&& w.branches[b].exclusive.contains(page)
        },
        k.0 != node || k.1 + 4096 <= offset || offset + data.len() <= k.1 || data.len() == 0 ==> {
            &&& w.branches[b].dirty.contains_key(k) <==> v.branches[b].dirty.contains_key(k)
            &&& v.branches[b].dirty.contains_key(k) ==> w.branches[b].dirty[k] == v.branches[b].dirty[k]
            &&& w.branches[b].exclusive.contains(k) <==> v.branches[b].exclusive.contains(k)
            &&& page_start(k.1) ==> identity_at::<S>(w, b, k.0, k.1 / 4096) == identity_at::<S>(v, b, k.0, k.1 / 4096)
        },
        w.branches[b].nodes == v.branches[b].nodes,
        w.branches[b].open == v.branches[b].open,
        w.branches[b].active == v.branches[b].active,
{
    if offset <= address < offset + data.len() {
        let page: PageKey = (node, (address / 4096 * 4096) as u64);
        assert(page.1 == address / 4096 * 4096);
        assert(crate::cache::visible::reached(node, offset as int, data.len() as int, page.0, page.1));
        assert(w.branches[b].dirty.contains_key(page));
        assert(w.branches[b].exclusive.contains(page));
    }
    if w.branches[b].dirty.contains_key(k) {
    }
    if w.branches[b].exclusive.contains(k) {
    }
}

/// A range of bytes lies in as many pages as it takes to reach from the page of its first byte over its
/// last.
pub proof fn pages_reach_over_the_bytes(offset: int, len: int)
    requires
        0 <= offset <= u64::MAX,
        0 <= len,
    ensures
        page_floor(offset) <= offset < page_floor(offset) + 4096,
        page_floor(offset) % 4096 == 0,
        len == 0 ==> pages_reached(offset, len) == 0,
        len > 0 ==> {
            &&& offset + len <= page_floor(offset) + 4096 * pages_reached(offset, len)
            &&& page_floor(offset) + 4096 * (pages_reached(offset, len) - 1) < offset + len
        },
{
}

proof fn lemma_pages_in<S: ForkableNodeStore>(v: CacheView<Identity<S>>, b: u64, node: NodeId, first: u64, count: nat, i: int)
    requires
        0 <= i < count,
        first + 4096 * count <= u64::MAX,
        v.branches.contains_key(b),
        forall|j: int| #![trigger (first + 4096 * j) as u64]
            0 <= j < count ==> identity_at::<S>(v, b, node, ((first + 4096 * j) as u64) / 4096) is Some,
    ensures
        pages_in::<S>(v, b, node, first, count).branches == v.branches,
        cached::<S>(pages_in::<S>(v, b, node, first, count), b, node, (first + 4096 * i) as u64),
        pages_in::<S>(v, b, node, first, count).known.contains((node, (first + 4096 * i) as u64)),
    decreases count,
{
    let before = pages_in::<S>(v, b, node, first, (count - 1) as nat);
    lemma_pages_in_branches::<S>(v, b, node, first, (count - 1) as nat);
    assert(identity_at::<S>(v, b, node, ((first + 4096 * (count - 1)) as u64) / 4096) is Some);
    if i < count - 1 {
        lemma_pages_in::<S>(v, b, node, first, (count - 1) as nat, i);
    }
}

proof fn lemma_pages_in_branches<S: ForkableNodeStore>(v: CacheView<Identity<S>>, b: u64, node: NodeId, first: u64, count: nat)
    ensures
        pages_in::<S>(v, b, node, first, count).branches == v.branches,
    decreases count,
{
    if count > 0 {
        lemma_pages_in_branches::<S>(v, b, node, first, (count - 1) as nat);
    }
}

/// A read from a file has each page in which one of the bytes read lies in the cache afterwards, and
/// changes nothing of any branch.
pub proof fn reading_brings_the_pages_in<S: ForkableNodeStore>(v: CacheView<Identity<S>>, b: u64, node: NodeId, offset: u64, len: int, address: int)
    requires
        v.branches.contains_key(b),
        0 < len,
        offset + len <= u64::MAX - 4096,
        offset <= address < offset + len,
        forall|p: u64| #![trigger identity_at::<S>(v, b, node, p / 4096)] identity_at::<S>(v, b, node, p / 4096) is Some,
    ensures
        ({
            let w = pages_in::<S>(v, b, node, page_floor(offset as int), pages_reached(offset as int, len));
            let page = (address / 4096 * 4096) as u64;
            &&& w.branches == v.branches
            &&& cached::<S>(w, b, node, page)
            &&& w.known.contains((node, page))
        }),
{
    let first = page_floor(offset as int);
    let count = pages_reached(offset as int, len);
    let i = address / 4096 - offset as int / 4096;
    pages_reach_over_the_bytes(offset as int, len);
    assert(first + 4096 * i == address / 4096 * 4096);
    assert(0 <= i < count);
    lemma_pages_in::<S>(v, b, node, first, count, i);
}

/// A branch that was just forked, and its fork, each take a page of their own with their first write to
/// any page; a branch that has mapped a page to write does not take another one.
pub proof fn forks_write_to_pages_of_their_own<S: ForkableNodeStore>(
    v: CacheView<Identity<S>>,
    source: u64,
    node: NodeId,
    offset: u64,
    flags: MapFlags,
    identities: int,
)
    requires
        v.branches.contains_key(source),
        v.next_branch < u64::MAX,
        !v.branches.contains_key(v.next_branch),
        flags.writable,
    ensures
        copies(cache_forked(v, source), source, node, offset, flags),
        copies(cache_forked(v, source), v.next_branch, node, offset, flags),
        !copies(v, source, node, offset, MapFlags { writable: false, ..flags }),
        cache_forked(v, source).branches.dom() == v.branches.dom().insert(v.next_branch).insert(source),
        !copies(mapped::<S>(v, source, node, offset, flags, identities), source, node, offset, flags),
{
    let loaded = faulted::<S>(v, source, node, offset);
    assert(loaded.branches == v.branches);
}

/// A mapping counts once, in its branch and for its page: giving it up leaves the branch with the
/// mappings that it had before, and its page dirty just where the mapping could be written to.
pub proof fn unmapping_undoes_mapping<S: ForkableNodeStore>(
    v: CacheView<Identity<S>>,
    b: u64,
    node: NodeId,
    offset: u64,
    flags: MapFlags,
    identities: int,
    page: u64,
    k: PageKey,
)
    requires
        v.branches.contains_key(b),
        countable(v, b),
        forall|p: u64| #[trigger] v.branches[b].active.contains_key(p) ==> v.branches[b].active[p] > 0,
    ensures
        ({
            let held = mapped::<S>(v, b, node, offset, flags, identities);
            let mapping = MappingView { cache_id: v.id, branch: b, key: (node, offset), flags, page: page_at::<S>(held, b, node, offset) };
            let given_up = unmapped(held, b, mapping);
            &&& active_count(held, b, mapping.page) == active_count(v, b, mapping.page) + 1
            &&& page != mapping.page ==> active_count(held, b, page) == active_count(v, b, page)
            &&& live(held, mapping)
            &&& unmap_refusal(held, b, mapping) is None
            &&& active_count(given_up, b, page) == active_count(v, b, page)
            &&& given_up.branches[b].active.contains_key(page) <==> v.branches[b].active.contains_key(page)
            &&& given_up.branches[b].open == v.branches[b].open
            &&& flags.writable ==> given_up.branches[b].dirty.contains_key((node, offset)) && given_up.branches[b].dirty[(node, offset)]
            &&& !flags.writable || k != (node, offset) ==> {
                &&& given_up.branches[b].dirty.contains_key(k) <==> v.branches[b].dirty.contains_key(k)
                &&& v.branches[b].dirty.contains_key(k) ==> given_up.branches[b].dirty[k] == v.branches[b].dirty[k]
            }
        }),
{
    let loaded = faulted::<S>(v, b, node, offset);
    assert(loaded.branches == v.branches);
    let ready = if copies(v, b, node, offset, flags) {
        crate::cache::shared::copied::<S>(loaded, b, node, offset, identities)
    } else {
        loaded
    };
    assert(ready.branches[b].active == v.branches[b].active);
    let number = page_at::<S>(ready, b, node, offset);
    let held = mapped::<S>(v, b, node, offset, flags, identities);
    assert(page_at::<S>(held, b, node, offset) == number);
    assert(held.branches[b].active == v.branches[b].active.insert(number, (active_count(v, b, number) + 1) as usize));
}

/// A page can be looked up if and only if its offset begins a page, some access is asked for, the branch
/// is there and the node is open in it. A mapping can be given up if and only if it is of this cache and
/// this branch and its page is mapped.
pub proof fn mappings_are_refused_only_so<I>(v: CacheView<I>, b: u64, node: NodeId, offset: u64, flags: MapFlags, mapping: MappingView)
    ensures
        map_refusal(v, b, node, offset, flags) is None <==> {
            &&& offset % 4096 == 0
            &&& flags.readable || flags.writable
            &&& v.branches.contains_key(b)
            &&& v.branches[b].open.contains_key(node) && v.branches[b].open[node] > 0
        },
        unmap_refusal(v, b, mapping) is None <==> {
            &&& mapping.cache_id == v.id && mapping.branch == b
            &&& v.branches.contains_key(b)
            &&& v.branches[b].active.contains_key(mapping.page)
        },
        open_count(v.branches[b].open, node) > 0 <==> v.branches[b].open.contains_key(node) && v.branches[b].open[node] > 0,
        v.branches[b].open.contains_key(node) ==> open_count(v.branches[b].open, node) == v.branches[b].open[node],
{
}

/// What is written through a mapping is seen at once by every branch that has the page, and no byte
/// beside it changes for anyone.
pub proof fn mapped_writes_are_seen<S: ForkableNodeStore>(
    v: CacheView<Identity<S>>,
    page: u64,
    offset: int,
    bytes: Seq<u8>,
    x: u64,
    n: NodeId,
    position: int,
)
    requires
        v.sound(),
        v.frames.contains_key(page),
        0 <= offset,
        offset + bytes.len() <= 4096,
        0 <= position <= u64::MAX,
        v.branches.contains_key(x),
    ensures
        ({
            let w = page_written(v, page, offset, bytes);
            let start = (position / 4096 * 4096) as u64;
            seen_byte::<S>(w, x, n, position) == (if cached::<S>(v, x, n, start) && page_at::<S>(v, x, n, start) == page && offset <= position % 4096 < offset
                + bytes.len() {
                bytes[position % 4096 - offset]
            } else {
                seen_byte::<S>(v, x, n, position)
            })
        }),
{
    let start = (position / 4096 * 4096) as u64;
    let w = page_written(v, page, offset, bytes);
    assert(cached::<S>(w, x, n, start) == cached::<S>(v, x, n, start));
    assert(v.frames[page].len() == 4096);
}

/// The pages that a branch is counted with are the cached ones that it sees at a place that was ever
/// mapped.
pub proof fn counted_pages_are_seen<S: ForkableNodeStore>(v: CacheView<Identity<S>>, b: u64, page: u64)
    ensures
        branch_pages::<S>(v, b).contains(page) <==> exists|k: PageKey| #[trigger]
            v.known.contains(k) && cached::<S>(v, b, k.0, k.1) && page_at::<S>(v, b, k.0, k.1) == page,
{
    if branch_pages::<S>(v, b).contains(page) {
        let k = choose|k: PageKey| #[trigger] v.known.contains(k) && crate::cache::shared::shows::<S>(v, b, k, page);
        assert(v.known.contains(k));
    }
    if exists|k: PageKey| #[trigger] v.known.contains(k) && cached::<S>(v, b, k.0, k.1) && page_at::<S>(v, b, k.0, k.1) == page {
        let k = choose|k: PageKey| #[trigger] v.known.contains(k) && cached::<S>(v, b, k.0, k.1) && page_at::<S>(v, b, k.0, k.1) == page;
        assert(crate::cache::shared::shows::<S>(v, b, k, page));
    }
}

/// Pages that neither an identity nor a mapping refers to are dropped; all others are kept, with their
/// bytes, and so is all else.
pub proof fn unreferenced_pages_are_dropped<I>(v: CacheView<I>, page: u64)
    ensures
        v.swept().frames.contains_key(page) <==> {
            &&& v.frames.contains_key(page)
            &&& {
                ||| exists|i: I| v.pages.contains_key(i) && #[trigger] v.pages[i] == page
                ||| exists|b: u64| #[trigger] v.branches.contains_key(b) && v.branches[b].active.contains_key(page)
            }
        },
        v.swept().frames.contains_key(page) ==> v.swept().frames[page] == v.frames[page],
        v.swept().pages == v.pages,
        v.swept().branches == v.branches,
        v.swept().known == v.known,
{
}

/// Once a branch has a copy of its own, the page that it saw before stays if another branch sees it, and
/// is no one's otherwise.
pub proof fn replaced_pages_stay_for_the_others<S: ForkableNodeStore>(v: CacheView<Identity<S>>, b: u64, node: NodeId, offset: u64, identities: int, x: u64)
    requires
        v.sound(),
        v.branches.contains_key(b),
        cached::<S>(v, b, node, offset),
        renamed::<S>(v.branches[b].identities, identities, node, offset / 4096),
        identity_of::<S>(identities, node, offset / 4096) != identity_at::<S>(v, b, node, offset / 4096),
    ensures
        ({
            let w = copied::<S>(v, b, node, offset, identities);
            let was = identity_at::<S>(v, b, node, offset / 4096);
            &&& x != b && v.branches.contains_key(x) && identity_at::<S>(v, x, node, offset / 4096) == was ==> {
                &&& cached::<S>(w, x, node, offset)
                &&& page_at::<S>(w, x, node, offset) == page_at::<S>(v, x, node, offset)
            }
            &&& (forall|y: u64| y != b && #[trigger] v.branches.contains_key(y) ==> identity_at::<S>(v, y, node, offset / 4096) != was)
                ==> !w.pages.contains_key(was->Some_0)
        }),
{
    let was = identity_at::<S>(v, b, node, offset / 4096)->Some_0;
    let branch = v.branches[b];
    let owned = CacheView {
        branches: v.branches.insert(b, BranchView { identities, exclusive: branch.exclusive.insert((node, offset)), ..branch }),
        ..v
    };
    if x != b && v.branches.contains_key(x) && identity_at::<S>(v, x, node, offset / 4096) == Some(was) {
        assert(owned.branches.contains_key(x));
        assert(identity_at::<S>(owned, x, node, offset / 4096) == Some(was));
        assert(sees::<S>(owned, node, offset / 4096, was));
    }
    if forall|y: u64| y != b && #[trigger] v.branches.contains_key(y) ==> identity_at::<S>(v, y, node, offset / 4096) != Some(was) {
        if sees::<S>(owned, node, offset / 4096, was) {
            let y = choose|y: u64| #[trigger] owned.branches.contains_key(y) && identity_at::<S>(owned, y, node, offset / 4096) == Some(was);
            if y != b {
                assert(v.branches.contains_key(y));
                assert(identity_at::<S>(v, y, node, offset / 4096) == Some(was));
            }
        }
    }
}

/// A mapping is of the page that was asked for, on behalf of the branch, in the way that was asked for. A
/// page that is not the branch's own is mapped writable only while the branch has no mapping of it, and it
/// is busy only while the branch has one.
pub proof fn mapping_is_what_was_asked_for<S: ForkableNodeStore>(
    v: CacheView<Identity<S>>,
    w: CacheView<Identity<S>>,
    b: u64,
    node: NodeId,
    offset: u64,
    flags: MapFlags,
    mapping: MappingView,
)
    requires
        v.wf(),
    ensures
        map_succeeds::<S>(v, w, b, node, offset, flags, mapping) ==> {
            &&& mapping.cache_id == v.id
            &&& mapping.branch == b
            &&& mapping.key == (node, offset)
            &&& mapping.flags == flags
            &&& mapping.page == page_at::<S>(w, b, node, offset)
            &&& cached::<S>(v, b, node, offset) && flags.writable && !v.branches[b].exclusive.contains((node, offset))
                ==> !v.branches[b].active.contains_key(page_at::<S>(v, b, node, offset))
        },
        map_fails::<S>(v, w, b, node, offset, flags, CacheError::PageBusy) ==> {
            &&& flags.writable && !v.branches[b].exclusive.contains((node, offset))
            &&& cached::<S>(v, b, node, offset)
            &&& v.branches[b].active.contains_key(page_at::<S>(v, b, node, offset))
        },
{
    let loaded = faulted::<S>(v, b, node, offset);
    let page = page_at::<S>(loaded, b, node, offset);
    if v.branches.contains_key(b) && identity_at::<S>(v, b, node, offset / 4096) is Some {
        if v.branches[b].active.contains_key(page) {
            assert(v.frames.contains_key(page));
            assert(page < v.next_page);
            if !cached::<S>(v, b, node, offset) {
                assert(page == v.next_page);
            }
        }
    }
}

/// When a branch is removed, what only it saw is dropped: an identity has a page afterwards if and only if
/// it had one and another branch sees a page under it. The other branches are as they were.
pub proof fn removal_drops_what_no_one_sees<S: ForkableNodeStore>(v: CacheView<Identity<S>>, b: u64, i: Identity<S>, x: u64)
    ensures
        ({
            let w = branch_removed::<S>(v, b);
            &&& w.pages.contains_key(i) <==> v.pages.contains_key(i) && exists|k: PageKey, y: u64|
                {
                    &&& #[trigger] v.known.contains(k)
                    &&& y != b
                    &&& #[trigger] v.branches.contains_key(y)
                    &&& identity_at::<S>(v, y, k.0, k.1 / 4096) == Some(i)
                }
            &&& w.pages.contains_key(i) ==> w.pages[i] == v.pages[i]
            &&& !w.branches.contains_key(b)
            &&& x != b ==> (w.branches.contains_key(x) <==> v.branches.contains_key(x))
            &&& x != b && v.branches.contains_key(x) ==> w.branches[x] == v.branches[x]
        }),
{
    let w = branch_removed::<S>(v, b);
    let rest = CacheView { branches: v.branches.remove(b), ..v };
    if w.pages.contains_key(i) {
        let k = choose|k: PageKey| #[trigger] rest.known.contains(k) && sees::<S>(rest, k.0, k.1 / 4096, i);
        let y = choose|y: u64| #[trigger] rest.branches.contains_key(y) && identity_at::<S>(rest, y, k.0, k.1 / 4096) == Some(i);
        assert(v.known.contains(k) && v.branches.contains_key(y));
        assert(identity_at::<S>(v, y, k.0, k.1 / 4096) == Some(i));
    }
    if v.pages.contains_key(i) && exists|k: PageKey, y: u64|
        {
            &&& #[trigger] v.known.contains(k)
            &&& y != b
            &&& #[trigger] v.branches.contains_key(y)
            &&& identity_at::<S>(v, y, k.0, k.1 / 4096) == Some(i)
        } {
        let (k, y) = choose|k: PageKey, y: u64|
            {
                &&& #[trigger] v.known.contains(k)
                &&& y != b
                &&& #[trigger] v.branches.contains_key(y)
                &&& identity_at::<S>(v, y, k.0, k.1 / 4096) == Some(i)
            };
        assert(rest.known.contains(k) && rest.branches.contains_key(y));
        assert(identity_at::<S>(rest, y, k.0, k.1 / 4096) == Some(i));
        assert(sees::<S>(rest, k.0, k.1 / 4096, i));
    }
}

/// A fork takes the next number and no more, begins with what the source has stored and marked, and with
/// no node open, nothing mapped and no page of its own; from then on the source has none of its own either.
pub proof fn forks_begin_so<I>(v: CacheView<I>, source: u64)
    requires
        v.branches.contains_key(source),
        source < v.next_branch < u64::MAX,
    ensures
        ({
            let w = cache_forked(v, source);
            let child = w.branches[v.next_branch];
            let was = v.branches[source];
            &&& w.next_branch == v.next_branch + 1
            &&& w.branches.contains_key(v.next_branch)
            &&& child.nodes == was.nodes && child.identities == was.identities && child.dirty == was.dirty
            &&& forall|n: NodeId| open_count(child.open, n) == 0
            &&& forall|page: u64| !child.active.contains_key(page)
            &&& forall|k: PageKey| !child.exclusive.contains(k) && !w.branches[source].exclusive.contains(k)
            &&& w.branches[source].nodes == was.nodes && w.branches[source].dirty == was.dirty
            &&& w.branches[source].open == was.open && w.branches[source].active == was.active
            &&& w.pages == v.pages && w.frames == v.frames && w.known == v.known
        }),
{
}

/// A node can be synced only where the cache has every page of it that is dirty and lies in the file; one
/// that it does not have makes the mapping stale.
pub proof fn synced_pages_are_cached<S: ForkableNodeStore>(
    v: CacheView<Identity<S>>,
    w: CacheView<Identity<S>>,
    b: u64,
    node: NodeId,
    r: Result<(), CacheError>,
    page: u64,
)
    requires
        sync_ends::<S>(v, w, b, node, r),
    ensures
        r is Ok && v.branches[b].dirty.contains_key((node, page)) && v.branches[b].dirty[(node, page)] && page < v.branches[b].nodes[node].len()
            ==> cached::<S>(v, b, node, page),
        r == Err::<(), CacheError>(CacheError::StaleMapping) ==> exists|p: u64|
            {
                &&& #[trigger] v.branches[b].dirty.contains_key((node, p)) && v.branches[b].dirty[(node, p)]
                &&& p < v.branches[b].nodes[node].len()
                &&& !cached::<S>(v, b, node, p)
            },
        r is Ok ==> v.branches.contains_key(b) && v.branches[b].nodes.contains_key(node),
{
    let len = v.branches[b].nodes[node].len() as int;
    if r is Ok {
        let pages = choose|pages: Seq<PageKey>|
            {
                &&& #[trigger] dirty_pages(v.branches[b].dirty, node, pages)
                &&& w == pages_synced::<S>(v, b, len, pages, pages.len() as int)
                &&& forall|i: int| 0 <= i < pages.len() && (#[trigger] pages[i]).1 < len ==> cached::<S>(v, b, node, pages[i].1)
            };
        let k: PageKey = (node, page);
        if v.branches[b].dirty.contains_key(k) && v.branches[b].dirty[k] && page < len {
            assert(pages.contains(k));
            let i = choose|i: int| 0 <= i < pages.len() && pages[i] == k;
            assert(pages[i].1 == page);
        }
    }
    if r == Err::<(), CacheError>(CacheError::StaleMapping) {
        let (pages, count) = choose|pages: Seq<PageKey>, count: int|
            {
                &&& v.branches.contains_key(b)
                &&& #[trigger] dirty_pages(v.branches[b].dirty, node, pages)
                &&& 0 <= count < pages.len()
                &&& w == #[trigger] pages_synced::<S>(v, b, len, pages, count)
                &&& pages[count].1 < len
                &&& identity_at::<S>(v, b, node, pages[count].1 / 4096) is Some
                &&& !cached::<S>(v, b, node, pages[count].1)
            };
        let k = pages[count];
        assert(pages.contains(k));
        assert(v.branches[b].dirty.contains_key((node, k.1)));
    }
}

/// A mapping is live while its branch counts its page, and is another cache's otherwise. It ends with the
/// last one of its page.
pub proof fn mappings_live_while_counted<I>(v: CacheView<I>, mapping: MappingView)
    requires
        v.sound(),
    ensures
        live(v, mapping) <==> mapping.cache_id == v.id && v.branches.contains_key(mapping.branch) && active_count(v, mapping.branch, mapping.page) > 0,
        live(v, mapping) ==> unmap_refusal(v, mapping.branch, mapping) is None,
        live(v, mapping) ==> (live(unmapped(v, mapping.branch, mapping), mapping) <==> active_count(v, mapping.branch, mapping.page) > 1),
{
    if v.branches.contains_key(mapping.branch) && v.branches[mapping.branch].active.contains_key(mapping.page) {
        assert(v.branches[mapping.branch].active[mapping.page] > 0);
    }
}

/// What is read of a file is what the branch sees of it, byte for byte; where it was written to, that is
/// what was written, and apart from that what it saw before.
pub proof fn file_reads_give_back_writes<S: ForkableNodeStore>(
    v: CacheView<Identity<S>>,
    w: CacheView<Identity<S>>,
    b: u64,
    node: NodeId,
    offset: u64,
    data: Seq<u8>,
    from: u64,
    len: nat,
    i: int,
)
    requires
        v.wf(),
        v.branches.contains_key(b),
        offset + data.len() <= u64::MAX,
        written_through::<S>(v, w, b, node, offset as int, data),
        from + len <= u64::MAX,
        0 <= i < len,
    ensures
        seen_bytes::<S>(w, b, node, offset as int, data.len()) == data,
        seen_bytes::<S>(v, b, node, from as int, len).len() == len,
        seen_bytes::<S>(v, b, node, from as int, len)[i] == visible_page::<S>(v, b, node, ((from + i) / 4096 * 4096) as u64)[(from + i) % 4096],
        from + len <= offset || offset + data.len() <= from ==> seen_bytes::<S>(w, b, node, from as int, len) == seen_bytes::<S>(
            v,
            b,
            node,
            from as int,
            len,
        ),
{
    let now = seen_bytes::<S>(w, b, node, offset as int, data.len());
    assert forall|j: int| 0 <= j < data.len() implies #[trigger] now[j] == data[j] by {
        reads_what_it_wrote::<S>(v, w, b, node, offset, data, node, offset + j);
    }
    assert(now =~= data);
    if from + len <= offset || offset + data.len() <= from {
        let was = seen_bytes::<S>(v, b, node, from as int, len);
        let same = seen_bytes::<S>(w, b, node, from as int, len);
        assert forall|j: int| 0 <= j < len implies #[trigger] same[j] == was[j] by {
            reads_what_it_wrote::<S>(v, w, b, node, offset, data, node, from + j);
        }
        assert(same =~= was);
    }
}

} // verus!
