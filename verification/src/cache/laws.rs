//! Laws of the page caches.

use vstd::prelude::*;

use crate::cache::dirty::PageKey;
#[allow(unused_imports)]
use crate::cache::dirty::dirty_pages;
#[allow(unused_imports)]
use crate::cache::files::{file_read_fails, file_write_fails};
#[allow(unused_imports)]
use crate::cache::page_cache::{store_back_fails_at, FileView};
#[allow(unused_imports)]
use crate::cache::shared::{
    active_count, branch_pages, branch_removed, cache_forked, cached, copied, copies, faulted, identity_at, lemma_copied,
    lemma_faulted, map_fails, map_refusal, mapped, page_at, page_sync_fails, pages_synced, renamed, seen_identities, sees, shows, sync_ends, CacheView,
    Identity,
};
#[allow(unused_imports)]
use crate::cache::store::{
    file_written, identity_of, page_of, serves, serves_pages, synced_bytes, CacheError, ForkableNodeStore, MapFlags, NodeId,
    NodeStore,
};
#[allow(unused_imports)]
use crate::io::IoError;
#[allow(unused_imports)]
use crate::cache::visible::{
    coherent, lemma_mapped_other, lemma_mapped_own, page_overlaid, page_start, paged_in, reached, seen_byte, visible_page,
    written_through,
};
#[allow(unused_imports)]
use crate::ordered::Key;

verus! {

/// A fork sees what its source sees, page for page, and nothing else changes: all other branches,
/// the source among them, see what they saw. The dirty pages are the source's.
pub proof fn fork_shows_the_source<S: ForkableNodeStore>(v: CacheView<Identity<S>>, source: u64, x: u64, node: NodeId, offset: u64)
    requires
        v.wf(),
        v.branches.contains_key(source),
        v.branches.contains_key(x),
        v.next_branch < u64::MAX,
    ensures
        ({
            let w = cache_forked(v, source);
            let child = v.next_branch;
            &&& identity_at::<S>(w, child, node, offset / 4096) == identity_at::<S>(v, source, node, offset / 4096)
            &&& visible_page::<S>(w, child, node, offset) == visible_page::<S>(v, source, node, offset)
            &&& visible_page::<S>(w, x, node, offset) == visible_page::<S>(v, x, node, offset)
            &&& w.branches[child].dirty == v.branches[source].dirty
            &&& w.branches[x].dirty == v.branches[x].dirty
        }),
{
}

/// A fork allocates no page, and shares with its source all pages that the source sees.
pub proof fn fork_shares_all_pages<S: ForkableNodeStore>(v: CacheView<Identity<S>>, source: u64)
    requires
        v.wf(),
        v.branches.contains_key(source),
        v.next_branch < u64::MAX,
    ensures
        cache_forked(v, source).frames == v.frames,
        branch_pages::<S>(cache_forked(v, source), v.next_branch) == branch_pages::<S>(v, source),
        branch_pages::<S>(cache_forked(v, source), source) == branch_pages::<S>(v, source),
{
    let w = cache_forked(v, source);
    assert forall|k: PageKey, page: u64| #[trigger] shows::<S>(w, v.next_branch, k, page) == shows::<S>(v, source, k, page) by {}
    assert forall|k: PageKey, page: u64| #[trigger] shows::<S>(w, source, k, page) == shows::<S>(v, source, k, page) by {}
    assert(branch_pages::<S>(w, v.next_branch) =~= branch_pages::<S>(v, source)) by {
        assert forall|page: u64| #[trigger] branch_pages::<S>(w, v.next_branch).contains(page) <==> branch_pages::<S>(v, source).contains(page) by {
            if branch_pages::<S>(v, source).contains(page) {
                let k = choose|k: PageKey| #[trigger] v.known.contains(k) && shows::<S>(v, source, k, page);
                assert(w.known.contains(k) && shows::<S>(w, v.next_branch, k, page));
            }
            if branch_pages::<S>(w, v.next_branch).contains(page) {
                let k = choose|k: PageKey| #[trigger] w.known.contains(k) && shows::<S>(w, v.next_branch, k, page);
                assert(v.known.contains(k) && shows::<S>(v, source, k, page));
            }
        }
    }
    assert(branch_pages::<S>(w, source) =~= branch_pages::<S>(v, source)) by {
        assert forall|page: u64| #[trigger] branch_pages::<S>(w, source).contains(page) <==> branch_pages::<S>(v, source).contains(page) by {
            if branch_pages::<S>(v, source).contains(page) {
                let k = choose|k: PageKey| #[trigger] v.known.contains(k) && shows::<S>(v, source, k, page);
                assert(w.known.contains(k) && shows::<S>(w, source, k, page));
            }
            if branch_pages::<S>(w, source).contains(page) {
                let k = choose|k: PageKey| #[trigger] w.known.contains(k) && shows::<S>(w, source, k, page);
                assert(v.known.contains(k) && shows::<S>(v, source, k, page));
            }
        }
    }
}

/// A fork of a coherent cache is coherent.
pub proof fn fork_stays_coherent<S: ForkableNodeStore>(v: CacheView<Identity<S>>, source: u64)
    requires
        v.wf(),
        coherent::<S>(v),
        v.branches.contains_key(source),
        v.next_branch < u64::MAX,
    ensures
        coherent::<S>(cache_forked(v, source)),
{
    let w = cache_forked(v, source);
    assert forall|a: u64, b: u64, node: NodeId, offset: u64|
        #![trigger visible_page::<S>(w, a, node, offset), visible_page::<S>(w, b, node, offset)]
        w.branches.contains_key(a) && w.branches.contains_key(b) && page_start(offset) && identity_at::<S>(w, a, node, offset / 4096) is Some
            && identity_at::<S>(w, a, node, offset / 4096) == identity_at::<S>(w, b, node, offset / 4096) implies visible_page::<S>(w, a, node, offset)
        == visible_page::<S>(w, b, node, offset) by {
        let c = if a == v.next_branch {
            source
        } else {
            a
        };
        let d = if b == v.next_branch {
            source
        } else {
            b
        };
        assert(visible_page::<S>(w, a, node, offset) == visible_page::<S>(v, c, node, offset));
        assert(visible_page::<S>(w, b, node, offset) == visible_page::<S>(v, d, node, offset));
    }
}

/// A cache with one branch is coherent.
pub proof fn one_branch_is_coherent<S: ForkableNodeStore>(v: CacheView<Identity<S>>, b: u64)
    requires
        forall|x: u64| #[trigger] v.branches.contains_key(x) ==> x == b,
    ensures
        coherent::<S>(v),
{
}

/// A cold fault of an unchanged page produces one page, whichever branch faults it first: a branch
/// that sees the same identity finds that page, and brings in no other.
pub proof fn one_page_per_identity<S: ForkableNodeStore>(v: CacheView<Identity<S>>, a: u64, b: u64, node: NodeId, offset: u64)
    requires
        v.wf(),
        v.branches.contains_key(a),
        v.branches.contains_key(b),
        identity_at::<S>(v, a, node, offset / 4096) is Some,
        identity_at::<S>(v, a, node, offset / 4096) == identity_at::<S>(v, b, node, offset / 4096),
    ensures
        ({
            let w = paged_in::<S>(v, a, node, offset);
            &&& faulted::<S>(w, b, node, offset) == w
            &&& page_at::<S>(w, b, node, offset) == page_at::<S>(w, a, node, offset)
        }),
{
}

/// A branch reads what it wrote, and everything else as before.
pub proof fn reads_what_it_wrote<S: ForkableNodeStore>(
    v: CacheView<Identity<S>>,
    w: CacheView<Identity<S>>,
    b: u64,
    node: NodeId,
    offset: u64,
    data: Seq<u8>,
    n: NodeId,
    position: int,
)
    requires
        v.wf(),
        v.branches.contains_key(b),
        offset + data.len() <= u64::MAX,
        written_through::<S>(v, w, b, node, offset as int, data),
        0 <= position <= u64::MAX,
    ensures
        seen_byte::<S>(w, b, n, position) == (if n == node && offset <= position < offset + data.len() {
            data[position - offset]
        } else {
            seen_byte::<S>(v, b, n, position)
        }),
{
    let p = (position / 4096 * 4096) as u64;
    assert(p == position / 4096 * 4096);
    assert(page_start(p));
    assert(visible_page::<S>(w, b, n, p) == (if reached(node, offset as int, data.len() as int, n, p) {
        page_overlaid(visible_page::<S>(v, b, n, p), p as int, offset as int, data)
    } else {
        visible_page::<S>(v, b, n, p)
    }));
}

/// What a branch writes no other branch sees, as long as the store gives a written page an
/// identity that no other branch has.
pub proof fn writes_are_isolated<S: ForkableNodeStore>(
    v: CacheView<Identity<S>>,
    w: CacheView<Identity<S>>,
    b: u64,
    node: NodeId,
    offset: u64,
    data: Seq<u8>,
    x: u64,
    n: NodeId,
    position: int,
)
    requires
        v.wf(),
        coherent::<S>(v),
        v.branches.contains_key(b),
        v.branches.contains_key(x),
        x != b,
        written_through::<S>(v, w, b, node, offset as int, data),
        0 <= position <= u64::MAX,
        forall|p: u64| #[trigger] reached(node, offset as int, data.len() as int, node, p) ==> identity_at::<S>(w, x, node, p / 4096)
            != identity_at::<S>(w, b, node, p / 4096),
    ensures
        seen_byte::<S>(w, x, n, position) == seen_byte::<S>(v, x, n, position),
        w.branches[x] == v.branches[x],
        coherent::<S>(w),
{
    let p = (position / 4096 * 4096) as u64;
    assert(p == position / 4096 * 4096);
    assert(page_start(p));
    assert(visible_page::<S>(w, x, n, p) == visible_page::<S>(v, x, n, p) || reached(node, offset as int, data.len() as int, n, p));
}

/// The page of a node that an identity is of.
pub open spec fn key_of<S: ForkableNodeStore>(i: Identity<S>) -> PageKey {
    (S::named_page(i).0, (S::named_page(i).1 * 4096) as u64)
}

/// Whether every page that is in the cache was ever mapped.
pub open spec fn all_known<S: ForkableNodeStore>(v: CacheView<Identity<S>>) -> bool {
    forall|i: Identity<S>| #[trigger] v.pages.contains_key(i) ==> v.known.contains(key_of::<S>(i))
}

/// Mapping a page, forking and removing a branch leave no page in the cache that was never mapped.
/// Only a mapping that the store refuses once the page was read may leave one.
pub proof fn cached_pages_stay_known<S: ForkableNodeStore>(
    v: CacheView<Identity<S>>,
    b: u64,
    node: NodeId,
    offset: u64,
    flags: MapFlags,
    identities: int,
)
    requires
        v.wf(),
        all_known::<S>(v),
        v.branches.contains_key(b),
    ensures
        page_start(offset) && identity_at::<S>(v, b, node, offset / 4096) is Some && (copies(v, b, node, offset, flags) ==> renamed::<S>(
            v.branches[b].identities,
            identities,
            node,
            offset / 4096,
        )) ==> all_known::<S>(mapped::<S>(v, b, node, offset, flags, identities)),
        all_known::<S>(cache_forked(v, b)),
        all_known::<S>(branch_removed::<S>(v, b)),
{
    let w = mapped::<S>(v, b, node, offset, flags, identities);
    if page_start(offset) && identity_at::<S>(v, b, node, offset / 4096) is Some && (copies(v, b, node, offset, flags) ==> renamed::<S>(
        v.branches[b].identities,
        identities,
        node,
        offset / 4096,
    )) {
        assert((offset / 4096) * 4096 == offset);
        assert forall|i: Identity<S>| #[trigger] w.pages.contains_key(i) implies w.known.contains(key_of::<S>(i)) by {
            if v.pages.contains_key(i) {
                assert(v.known.contains(key_of::<S>(i)));
            }
        }
    }
}

/// Removing a branch changes nothing that another branch sees. A page that is in the cache without
/// ever having been mapped is read from the store again, so it has to hold what the store holds.
pub proof fn removal_leaves_the_others<S: ForkableNodeStore>(v: CacheView<Identity<S>>, b: u64, x: u64, node: NodeId, offset: u64)
    requires
        v.wf(),
        v.branches.contains_key(b),
        v.branches.contains_key(x),
        x != b,
        page_start(offset),
        cached::<S>(v, x, node, offset) && !v.known.contains((node, offset)) ==> v.frames[page_at::<S>(v, x, node, offset)] == page_of(
            v.branches[x].nodes[node],
            offset as int,
        ),
    ensures
        branch_removed::<S>(v, b).branches[x] == v.branches[x],
        visible_page::<S>(branch_removed::<S>(v, b), x, node, offset) == visible_page::<S>(v, x, node, offset),
{
    let rest = CacheView { branches: v.branches.remove(b), ..v };
    let kept = CacheView { pages: v.pages.restrict(seen_identities::<S>(rest)), ..rest };
    assert(rest.branches.contains_key(x));
    if cached::<S>(v, x, node, offset) {
        let i = identity_at::<S>(v, x, node, offset / 4096)->Some_0;
        assert(v.pages.contains_key(i));
        assert(v.frames.contains_key(v.pages[i]));
        assert(identity_at::<S>(rest, x, node, offset / 4096) == Some(i));
        assert(sees::<S>(rest, node, offset / 4096, i));
        if rest.known.contains((node, offset)) {
            assert(seen_identities::<S>(rest).contains(i));
        }
        if seen_identities::<S>(rest).contains(i) {
            assert(kept.pages.contains_key(i));
            assert(kept.referenced(kept.pages[i]));
        }
    }
}

/// In a cache of which every page was ever mapped, removing a branch changes nothing that another
/// branch sees of any page.
pub proof fn removal_leaves_every_page<S: ForkableNodeStore>(v: CacheView<Identity<S>>, b: u64, x: u64, node: NodeId, offset: u64)
    requires
        v.wf(),
        all_known::<S>(v),
        v.branches.contains_key(b),
        v.branches.contains_key(x),
        x != b,
        page_start(offset),
    ensures
        branch_removed::<S>(v, b).branches[x] == v.branches[x],
        visible_page::<S>(branch_removed::<S>(v, b), x, node, offset) == visible_page::<S>(v, x, node, offset),
{
    if cached::<S>(v, x, node, offset) {
        let i = identity_at::<S>(v, x, node, offset / 4096)->Some_0;
        assert(v.pages.contains_key(i));
        assert((offset / 4096) * 4096 == offset);
        assert(key_of::<S>(i) == (node, offset));
    }
    removal_leaves_the_others::<S>(v, b, x, node, offset);
}

/// Two caches whose page numbers do not meet have no page of the same number.
pub proof fn caches_share_no_page<I, J>(v: CacheView<I>, w: CacheView<J>, page: u64)
    requires
        v.wf(),
        w.wf(),
        v.next_page <= w.first_page,
    ensures
        !(v.frames.contains_key(page) && w.frames.contains_key(page)),
{
}

/// The first writable mapping of a page gives the branch a page that was never there before, with
/// the bytes that the branch saw. Every other branch keeps its identity, its page and its bytes, as
/// long as the store gives the written page an identity that the branch does not have. Until the
/// next fork the branch keeps the page, however it maps it.
pub proof fn first_write_takes_a_new_page<S: ForkableNodeStore>(
    v: CacheView<Identity<S>>,
    b: u64,
    node: NodeId,
    offset: u64,
    flags: MapFlags,
    identities: int,
    x: u64,
    later: MapFlags,
    anything: int,
)
    requires
        v.wf(),
        coherent::<S>(v),
        v.branches.contains_key(b),
        v.branches.contains_key(x),
        x != b,
        v.next_page < u64::MAX - 1,
        page_start(offset),
        identity_at::<S>(v, b, node, offset / 4096) is Some,
        copies(v, b, node, offset, flags),
        renamed::<S>(v.branches[b].identities, identities, node, offset / 4096),
        identity_at::<S>(v, x, node, offset / 4096) != identity_of::<S>(identities, node, offset / 4096),
        active_count(v, b, page_at::<S>(faulted::<S>(v, b, node, offset), b, node, offset)) < usize::MAX,
    ensures
        ({
            let w = mapped::<S>(v, b, node, offset, flags, identities);
            &&& page_at::<S>(w, b, node, offset) >= v.next_page
            &&& !v.frames.contains_key(page_at::<S>(w, b, node, offset))
            &&& visible_page::<S>(w, b, node, offset) == visible_page::<S>(v, b, node, offset)
            &&& w.branches[x] == v.branches[x]
            &&& visible_page::<S>(w, x, node, offset) == visible_page::<S>(v, x, node, offset)
            &&& cached::<S>(v, x, node, offset) ==> cached::<S>(w, x, node, offset) && page_at::<S>(w, x, node, offset) == page_at::<S>(v, x, node, offset)
            &&& cached::<S>(w, b, node, offset)
            &&& page_at::<S>(mapped::<S>(w, b, node, offset, later, anything), b, node, offset) == page_at::<S>(w, b, node, offset)
        }),
{
    let w = mapped::<S>(v, b, node, offset, flags, identities);
    let loaded = faulted::<S>(v, b, node, offset);
    lemma_faulted::<S>(v, b, node, offset);
    lemma_copied::<S>(loaded, b, node, offset, identities);
    lemma_mapped_own::<S>(v, b, node, offset, flags, identities, node, offset);
    lemma_mapped_other::<S>(v, b, node, offset, flags, identities, x, node, offset);
    if cached::<S>(v, x, node, offset) {
        let i = identity_at::<S>(v, x, node, offset / 4096)->Some_0;
        let ready = copied::<S>(loaded, b, node, offset, identities);
        assert(loaded.pages.contains_key(i));
        assert(ready.branches.contains_key(x));
        assert(identity_at::<S>(ready, x, node, offset / 4096) == Some(i));
    }
}

/// Once a node is synced, its store holds what the branch sees of each page that was dirty, up to
/// the end of the file, holds all else as before, and no page of the node is dirty.
pub proof fn sync_stores_what_is_seen<S: ForkableNodeStore>(v: CacheView<Identity<S>>, b: u64, node: NodeId, pages: Seq<PageKey>, position: int)
    requires
        v.wf(),
        v.branches.contains_key(b),
        dirty_pages(v.branches[b].dirty, node, pages),
        forall|i: int| 0 <= i < pages.len() && (#[trigger] pages[i]).1 < v.branches[b].nodes[node].len() ==> cached::<S>(v, b, node, pages[i].1),
        0 <= position < v.branches[b].nodes[node].len() <= u64::MAX,
    ensures
        ({
            let len = v.branches[b].nodes[node].len() as int;
            let w = pages_synced::<S>(v, b, len, pages, pages.len() as int);
            let page: PageKey = (node, (position / 4096 * 4096) as u64);
            &&& w.branches[b].nodes[node].len() == len
            &&& w.branches[b].nodes[node][position] == (if v.branches[b].dirty.contains_key(page) && v.branches[b].dirty[page] {
                seen_byte::<S>(v, b, node, position)
            } else {
                v.branches[b].nodes[node][position]
            })
            &&& forall|n: NodeId| n != node ==> #[trigger] w.branches[b].nodes[n] == v.branches[b].nodes[n]
            &&& forall|k: PageKey| k.0 == node && #[trigger] w.branches[b].dirty.contains_key(k) ==> !w.branches[b].dirty[k]
            &&& forall|k: PageKey| k.0 != node ==> (#[trigger] w.branches[b].dirty.contains_key(k) <==> v.branches[b].dirty.contains_key(k))
            &&& forall|k: PageKey| k.0 != node && #[trigger] v.branches[b].dirty.contains_key(k) ==> w.branches[b].dirty[k] == v.branches[b].dirty[k]
            &&& w.frames == v.frames
            &&& w.pages == v.pages
        }),
{
    let len = v.branches[b].nodes[node].len() as int;
    lemma_pages_synced::<S>(v, b, node, pages, pages.len() as int, position);
    let page: PageKey = (node, (position / 4096 * 4096) as u64);
    assert(pages.contains(page) <==> v.branches[b].dirty.contains_key(page) && v.branches[b].dirty[page]);
    let w = pages_synced::<S>(v, b, len, pages, pages.len() as int);
    assert forall|k: PageKey| #[trigger] first_has(pages, pages.len() as int, k) implies pages.contains(k) by {
        let i = choose|i: int| 0 <= i < pages.len() && #[trigger] pages[i] == k;
        assert(pages[i] == k);
    }
    assert forall|k: PageKey| k.0 != node implies (#[trigger] w.branches[b].dirty.contains_key(k) <==> v.branches[b].dirty.contains_key(k)) by {
        assert(!pages.contains(k));
    }
    assert forall|k: PageKey| k.0 != node && #[trigger] v.branches[b].dirty.contains_key(k) implies w.branches[b].dirty[k] == v.branches[b].dirty[k] by {
        assert(!pages.contains(k));
        assert(w.branches[b].dirty.contains_key(k));
    }
    assert forall|k: PageKey| k.0 == node && #[trigger] w.branches[b].dirty.contains_key(k) implies !w.branches[b].dirty[k] by {
        if pages.contains(k) {
            let i = choose|i: int| 0 <= i < pages.len() && pages[i] == k;
            assert(first_has(pages, pages.len() as int, k));
        }
    }
    if pages.contains(page) {
        let i = choose|i: int| 0 <= i < pages.len() && pages[i] == page;
        assert(first_has(pages, pages.len() as int, page));
    }
}

/// Whether the key is one of the first `n`.
spec fn first_has(pages: Seq<PageKey>, n: int, k: PageKey) -> bool {
    exists|i: int| 0 <= i < n && #[trigger] pages[i] == k
}

proof fn lemma_pages_synced<S: ForkableNodeStore>(v: CacheView<Identity<S>>, b: u64, node: NodeId, pages: Seq<PageKey>, count: int, position: int)
    requires
        v.wf(),
        v.branches.contains_key(b),
        dirty_pages(v.branches[b].dirty, node, pages),
        0 <= count <= pages.len(),
        forall|i: int| 0 <= i < pages.len() && (#[trigger] pages[i]).1 < v.branches[b].nodes[node].len() ==> cached::<S>(v, b, node, pages[i].1),
        0 <= position < v.branches[b].nodes[node].len() <= u64::MAX,
    ensures
        ({
            let len = v.branches[b].nodes[node].len() as int;
            let w = pages_synced::<S>(v, b, len, pages, count);
            let page: PageKey = (node, (position / 4096 * 4096) as u64);
            &&& w.branches.contains_key(b)
            &&& w.branches[b].identities == v.branches[b].identities
            &&& w.branches[b].nodes[node].len() == len
            &&& w.branches[b].nodes[node][position] == (if first_has(pages, count, page) {
                seen_byte::<S>(v, b, node, position)
            } else {
                v.branches[b].nodes[node][position]
            })
            &&& forall|n: NodeId| n != node ==> #[trigger] w.branches[b].nodes[n] == v.branches[b].nodes[n]
            &&& forall|k: PageKey| #[trigger] first_has(pages, count, k) ==> w.branches[b].dirty.contains_key(k) && !w.branches[b].dirty[k]
            &&& forall|k: PageKey| !first_has(pages, count, k) ==> (#[trigger] w.branches[b].dirty.contains_key(k) <==> v.branches[b].dirty.contains_key(k))
            &&& forall|k: PageKey| !first_has(pages, count, k) && #[trigger] w.branches[b].dirty.contains_key(k) ==> w.branches[b].dirty[k] == v.branches[b].dirty[k]
            &&& w.frames == v.frames
            &&& w.pages == v.pages
        }),
    decreases count,
{
    let len = v.branches[b].nodes[node].len() as int;
    if count > 0 {
        lemma_pages_synced::<S>(v, b, node, pages, count - 1, position);
        let u = pages_synced::<S>(v, b, len, pages, count - 1);
        let w = pages_synced::<S>(v, b, len, pages, count);
        let key = pages[count - 1];
        assert(pages.contains(key));
        assert(v.branches[b].dirty.contains_key(key));
        let page: PageKey = (node, (position / 4096 * 4096) as u64);
        assert forall|k: PageKey| first_has(pages, count, k) <==> first_has(pages, count - 1, k) || k == key by {
            if first_has(pages, count, k) {
                let i = choose|i: int| 0 <= i < count && #[trigger] pages[i] == k;
                if i < count - 1 {
                    assert(first_has(pages, count - 1, k));
                }
            }
            if first_has(pages, count - 1, k) {
                let i = choose|i: int| 0 <= i < count - 1 && #[trigger] pages[i] == k;
                assert(pages[i] == k);
            }
        }
        if key.1 < len {
            assert(cached::<S>(v, b, node, key.1));
            assert(cached::<S>(u, b, node, key.1));
            let held = u.frames[page_at::<S>(u, b, node, key.1)];
            assert(v.pages.contains_key(identity_at::<S>(v, b, node, key.1 / 4096)->Some_0));
            assert(v.frames.contains_key(page_at::<S>(v, b, node, key.1)));
            assert(held.len() == 4096);
            assert(held == visible_page::<S>(v, b, node, key.1));
            let data = synced_bytes(held, key.1 as int, len);
            assert(w.branches[b].nodes[node] == file_written(u.branches[b].nodes[node], key.1 as int, data));
            if key.1 <= position < key.1 + data.len() {
                assert(page == key);
                assert(position % 4096 == position - key.1);
            } else if page == key {
                assert(key.1 <= position < key.1 + 4096);
            }
        } else {
            assert(page != key);
        }
    }
}

/// A write through one mapping of a node is seen through every mapping of the node, and nothing
/// else of what is cached changes.
pub proof fn mappings_share_pages(f: FileView, offset: int, data: Seq<u8>, position: int)
    requires
        f.wf(),
        0 <= offset,
        0 <= position <= u64::MAX,
        f.pages.contains_key((position / 4096 * 4096) as u64),
    ensures
        f.overlaid(offset, data).cached_byte(position) == (if offset <= position < offset + data.len() {
            data[position - offset]
        } else {
            f.cached_byte(position)
        }),
{
    let p = (position / 4096 * 4096) as u64;
    assert(p == position / 4096 * 4096);
    assert(f.overlaid(offset, data).pages.contains_key(p));
}

/// A write to the file is seen through every mapping of the node, and nothing else that is seen
/// through a mapping changes.
pub proof fn write_reaches_mappings(f: FileView, offset: int, data: Seq<u8>, position: int)
    requires
        f.wf(),
        0 <= offset,
        0 <= position <= u64::MAX,
        f.pages.contains_key((position / 4096 * 4096) as u64),
    ensures
        f.updated(offset, data).cached_byte(position) == (if offset <= position < offset + data.len() {
            data[position - offset]
        } else {
            f.cached_byte(position)
        }),
{
    let p = (position / 4096 * 4096) as u64;
    assert(p == position / 4096 * 4096);
    assert(f.updated(offset, data).pages.contains_key(p));
}

/// Mapping a page that is cached and up to date keeps its bytes: what was written through one
/// mapping is there for the next.
pub proof fn remapping_keeps_bytes(f: FileView, contents: Seq<u8>, offset: u64, count: int, flags: MapFlags, p: u64)
    requires
        f.current(p),
    ensures
        f.range_mapped(contents, offset, count, flags).current(p),
        f.range_mapped(contents, offset, count, flags).pages[p].bytes == f.pages[p].bytes,
{
}

/// Where the store serves a node, mapping one of the node's pages fails in no way, once nothing
/// about the request is refused and the page, if it is to be copied, is not mapped already.
pub proof fn served_pages_can_be_mapped<S: ForkableNodeStore>(
    v: CacheView<Identity<S>>,
    w: CacheView<Identity<S>>,
    b: u64,
    node: NodeId,
    offset: u64,
    flags: MapFlags,
    e: CacheError,
)
    requires
        serves_pages::<S>(node),
        v.branches[b].nodes.contains_key(node),
        map_refusal(v, b, node, offset, flags) is None,
        copies(v, b, node, offset, flags) ==> active_count(v, b, page_at::<S>(faulted::<S>(v, b, node, offset), b, node, offset)) == 0,
    ensures
        !map_fails::<S>(v, w, b, node, offset, flags, e),
{
}

/// Where the store serves a node, the node can be synced, once each of its dirty pages that begin
/// within the file is cached.
pub proof fn served_nodes_can_be_synced<S: ForkableNodeStore>(
    v: CacheView<Identity<S>>,
    w: CacheView<Identity<S>>,
    b: u64,
    node: NodeId,
    r: Result<(), CacheError>,
)
    requires
        serves_pages::<S>(node),
        v.branches.contains_key(b),
        v.branches[b].nodes.contains_key(node),
        forall|p: u64| #[trigger]
            v.branches[b].dirty.contains_key((node, p)) && v.branches[b].dirty[(node, p)] && p < v.branches[b].nodes[node].len() ==> cached::<S>(
                v,
                b,
                node,
                p,
            ),
        sync_ends::<S>(v, w, b, node, r),
    ensures
        r is Ok,
{
    let len = v.branches[b].nodes[node].len() as int;
    match r {
        Ok(()) => {},
        Err(CacheError::StaleMapping) => {
            let (pages, count) = choose|pages: Seq<PageKey>, count: int|
                {
                    &&& #[trigger] dirty_pages(v.branches[b].dirty, node, pages)
                    &&& 0 <= count < pages.len()
                    &&& w == #[trigger] pages_synced::<S>(v, b, len, pages, count)
                    &&& pages[count].1 < len
                    &&& !cached::<S>(v, b, node, pages[count].1)
                };
            assert(pages.contains(pages[count]));
            assert(v.branches[b].dirty.contains_key((node, pages[count].1)));
        },
        Err(CacheError::Io(error)) => {
            let (pages, count) = choose|pages: Seq<PageKey>, count: int|
                {
                    let u = #[trigger] pages_synced::<S>(v, b, len, pages, count);
                    &&& #[trigger] dirty_pages(v.branches[b].dirty, node, pages)
                    &&& 0 <= count < pages.len()
                    &&& page_sync_fails::<S>(u, b, len, pages[count], error)
                };
            assert(pages.contains(pages[count]));
            lemma_synced_nodes::<S>(v, b, len, node, pages, count);
        },
        Err(_) => {},
    }
}

/// Writing pages of a node back leaves the node there.
proof fn lemma_synced_nodes<S: ForkableNodeStore>(v: CacheView<Identity<S>>, b: u64, len: int, node: NodeId, pages: Seq<PageKey>, count: int)
    requires
        v.branches.contains_key(b),
        v.branches[b].nodes.contains_key(node),
    ensures
        pages_synced::<S>(v, b, len, pages, count).branches.contains_key(b),
        pages_synced::<S>(v, b, len, pages, count).branches[b].nodes.contains_key(node),
    decreases count,
{
    if count > 0 {
        lemma_synced_nodes::<S>(v, b, len, node, pages, count - 1);
    }
}

/// Where the store serves a node, no read of the node and no write to it ends with the store's
/// answer.
pub proof fn served_files_can_be_accessed<S: ForkableNodeStore>(
    v: CacheView<Identity<S>>,
    w: CacheView<Identity<S>>,
    b: u64,
    node: NodeId,
    offset: u64,
    data: Seq<u8>,
    error: IoError,
)
    requires
        serves_pages::<S>(node),
        v.branches[b].nodes.contains_key(node),
    ensures
        !file_read_fails::<S>(v, w, b, node, offset, data.len() as int, error),
        !file_write_fails::<S>(v, w, b, node, offset, data, error),
{
}

/// Where the store serves a node, its cached pages can be written back, whatever the node holds by
/// then.
pub proof fn served_pages_can_be_stored_back<S: NodeStore>(
    nodes: Map<NodeId, Seq<u8>>,
    contents: Seq<u8>,
    identities: int,
    node: NodeId,
    p: u64,
    bytes: Seq<u8>,
    error: IoError,
)
    requires
        serves::<S>(node),
        nodes.contains_key(node),
    ensures
        !store_back_fails_at::<S>(nodes, contents, identities, node, p, bytes, error),
{
}

} // verus!
