//! What a branch of a cache sees of its files, and what a mapping, a write or a fork does to it.

use vstd::prelude::*;

#[allow(unused_imports)]
use crate::bytes::laid_over;
#[allow(unused_imports)]
use crate::cache::dirty::PageKey;
#[allow(unused_imports)]
use crate::cache::shared::{
    activated, active_count, cached, copied, copies, faulted, identity_at, lemma_activated,
    lemma_copied, lemma_faulted, lemma_still_referenced, lemma_swept_is_tidy, mapped, page_at,
    page_written, renamed, sees, unmapped, BranchView, CacheView, Identity, MappingView,
};
#[allow(unused_imports)]
use crate::cache::store::{identity_of, page_of, ForkableNodeStore, MapFlags, NodeId};

verus! {

/// The page that branch `b` sees at `offset` of a node.
pub open spec fn visible_page<S: ForkableNodeStore>(v: CacheView<Identity<S>>, b: u64, node: NodeId, offset: u64) -> Seq<u8> {
    if cached::<S>(v, b, node, offset) {
        v.frames[page_at::<S>(v, b, node, offset)]
    } else {
        page_of(v.branches[b].nodes[node], offset as int)
    }
}

/// Whether `offset` is where a page begins.
pub open spec fn page_start(offset: u64) -> bool {
    offset % 4096 == 0
}

/// Whether branches that see the same identity for a page find the same bytes in their stores, as
/// long as the page is not in the cache.
pub open spec fn coherent<S: ForkableNodeStore>(v: CacheView<Identity<S>>) -> bool {
    forall|a: u64, b: u64, node: NodeId, offset: u64|
        #![trigger visible_page::<S>(v, a, node, offset), visible_page::<S>(v, b, node, offset)]
        {
            &&& v.branches.contains_key(a)
            &&& v.branches.contains_key(b)
            &&& page_start(offset)
            &&& identity_at::<S>(v, a, node, offset / 4096) is Some
            &&& identity_at::<S>(v, a, node, offset / 4096) == identity_at::<S>(v, b, node, offset / 4096)
        } ==> visible_page::<S>(v, a, node, offset) == visible_page::<S>(v, b, node, offset)
}

/// Letting go of unneeded pages changes nothing that a branch sees.
pub proof fn lemma_swept_visible<S: ForkableNodeStore>(v: CacheView<Identity<S>>, b: u64, node: NodeId, offset: u64)
    ensures
        cached::<S>(v.swept(), b, node, offset) == cached::<S>(v, b, node, offset),
        v.sound() ==> visible_page::<S>(v.swept(), b, node, offset) == visible_page::<S>(v, b, node, offset),
{
    if cached::<S>(v, b, node, offset) && v.sound() {
        let i = identity_at::<S>(v, b, node, offset / 4096)->Some_0;
        assert(v.pages.contains_key(i) && v.pages[i] == page_at::<S>(v, b, node, offset));
        assert(v.referenced(v.pages[i]));
        assert(v.frames.contains_key(v.pages[i]));
    }
}

/// Two pages at which some branch sees the same identity are one page.
pub proof fn lemma_same_identity_same_page<S: ForkableNodeStore>(
    v: CacheView<Identity<S>>,
    a: u64,
    b: u64,
    n: NodeId,
    m: NodeId,
    p: u64,
    q: u64,
)
    requires
        identity_at::<S>(v, a, n, p / 4096) is Some,
        identity_at::<S>(v, a, n, p / 4096) == identity_at::<S>(v, b, m, q / 4096),
        page_start(p),
        page_start(q),
    ensures
        n == m,
        p == q,
{
}

/// Bringing a page into a coherent cache changes nothing that a branch sees.
pub proof fn lemma_faulted_visible<S: ForkableNodeStore>(
    v: CacheView<Identity<S>>,
    b: u64,
    node: NodeId,
    offset: u64,
    x: u64,
    n: NodeId,
    p: u64,
)
    requires
        v.sound(),
        coherent::<S>(v),
        v.branches.contains_key(b),
        v.branches.contains_key(x),
        v.next_page < u64::MAX,
        page_start(offset),
        page_start(p),
        identity_at::<S>(v, b, node, offset / 4096) is Some,
    ensures
        visible_page::<S>(faulted::<S>(v, b, node, offset), x, n, p) == visible_page::<S>(v, x, n, p),
{
    let w = faulted::<S>(v, b, node, offset);
    let i = identity_at::<S>(v, b, node, offset / 4096)->Some_0;
    if !cached::<S>(v, b, node, offset) {
        if cached::<S>(v, x, n, p) {
            let j = identity_at::<S>(v, x, n, p / 4096)->Some_0;
            assert(v.frames.contains_key(v.pages[j]));
        } else if cached::<S>(w, x, n, p) {
            lemma_same_identity_same_page::<S>(v, x, b, n, node, p, offset);
            assert(visible_page::<S>(v, x, n, p) == visible_page::<S>(v, b, node, offset));
        }
    }
}

/// Pages are of the size of a page.
pub proof fn lemma_visible_page_len<S: ForkableNodeStore>(v: CacheView<Identity<S>>, b: u64, node: NodeId, offset: u64)
    requires
        v.sound(),
    ensures
        visible_page::<S>(v, b, node, offset).len() == 4096,
{
    if cached::<S>(v, b, node, offset) {
        assert(v.pages.contains_key(identity_at::<S>(v, b, node, offset / 4096)->Some_0));
        assert(v.frames.contains_key(page_at::<S>(v, b, node, offset)));
    }
}

/// The same, for the pages of the branch itself, whether or not the cache is coherent.
pub proof fn lemma_faulted_own<S: ForkableNodeStore>(v: CacheView<Identity<S>>, b: u64, node: NodeId, offset: u64, n: NodeId, p: u64)
    requires
        v.sound(),
        v.branches.contains_key(b),
        v.next_page < u64::MAX,
        page_start(offset),
        page_start(p),
        identity_at::<S>(v, b, node, offset / 4096) is Some,
    ensures
        visible_page::<S>(faulted::<S>(v, b, node, offset), b, n, p) == visible_page::<S>(v, b, n, p),
{
    let w = faulted::<S>(v, b, node, offset);
    if !cached::<S>(v, b, node, offset) {
        if cached::<S>(v, b, n, p) {
            let j = identity_at::<S>(v, b, n, p / 4096)->Some_0;
            assert(v.frames.contains_key(v.pages[j]));
        } else if cached::<S>(w, b, n, p) {
            lemma_same_identity_same_page::<S>(v, b, b, n, node, p, offset);
        }
    }
}

/// Copying a page changes nothing that a branch sees, but for branches that the store gave the
/// same new identity.
pub proof fn lemma_copied_visible<S: ForkableNodeStore>(
    v: CacheView<Identity<S>>,
    b: u64,
    node: NodeId,
    offset: u64,
    identities: int,
    x: u64,
    n: NodeId,
    p: u64,
)
    requires
        v.sound(),
        v.branches.contains_key(b),
        v.branches.contains_key(x),
        v.next_page < u64::MAX,
        page_start(offset),
        page_start(p),
        cached::<S>(v, b, node, offset),
        renamed::<S>(v.branches[b].identities, identities, node, offset / 4096),
        x == b || !(n == node && p == offset) || identity_at::<S>(v, x, n, p / 4096) != identity_of::<S>(identities, node, offset / 4096),
    ensures
        visible_page::<S>(copied::<S>(v, b, node, offset, identities), x, n, p) == visible_page::<S>(v, x, n, p),
{
    let w = copied::<S>(v, b, node, offset, identities);
    let was = identity_at::<S>(v, b, node, offset / 4096)->Some_0;
    let branch = v.branches[b];
    let owned = CacheView {
        branches: v.branches.insert(b, BranchView { identities, exclusive: branch.exclusive.insert((node, offset)), ..branch }),
        ..v
    };
    let now = identity_of::<S>(identities, node, offset / 4096)->Some_0;
    assert(v.pages.contains_key(was) && v.frames.contains_key(v.pages[was]));
    assert(owned.branches.contains_key(b));
    assert(now == was ==> sees::<S>(owned, node, offset / 4096, was));
    if x == b && n == node && p == offset {
        assert(identity_at::<S>(w, x, n, p / 4096) == Some(now));
    } else {
        assert(identity_at::<S>(w, x, n, p / 4096) == identity_at::<S>(v, x, n, p / 4096)) by {
            if x == b {
                assert(!(n == node && p / 4096 == offset / 4096));
            }
        }
        if identity_at::<S>(v, x, n, p / 4096) is Some {
            let j = identity_at::<S>(v, x, n, p / 4096)->Some_0;
            if j == was {
                assert(n == node && p == offset);
                assert(x != b);
                assert(owned.branches.contains_key(x));
                assert(identity_at::<S>(owned, x, node, offset / 4096) == Some(was));
                assert(sees::<S>(owned, node, offset / 4096, was));
            }
            if j == now {
                assert(n == node && p == offset);
            }
            if v.pages.contains_key(j) {
                assert(v.frames.contains_key(v.pages[j]));
            }
        }
    }
}

/// Counting a mapping changes nothing that a branch sees.
pub proof fn lemma_activated_visible<S: ForkableNodeStore>(v: CacheView<Identity<S>>, b: u64, key: PageKey, page: u64, x: u64, n: NodeId, p: u64)
    requires
        v.branches.contains_key(b),
    ensures
        visible_page::<S>(activated(v, b, key, page), x, n, p) == visible_page::<S>(v, x, n, p),
        cached::<S>(activated(v, b, key, page), x, n, p) == cached::<S>(v, x, n, p),
{
}

/// What a branch sees of its own pages does not change when it maps one.
pub proof fn lemma_mapped_own<S: ForkableNodeStore>(
    v: CacheView<Identity<S>>,
    b: u64,
    node: NodeId,
    offset: u64,
    flags: MapFlags,
    identities: int,
    n: NodeId,
    p: u64,
)
    requires
        v.wf(),
        v.branches.contains_key(b),
        v.next_page < u64::MAX - 1,
        page_start(offset),
        page_start(p),
        identity_at::<S>(v, b, node, offset / 4096) is Some,
        copies(v, b, node, offset, flags) ==> renamed::<S>(v.branches[b].identities, identities, node, offset / 4096),
        active_count(v, b, page_at::<S>(faulted::<S>(v, b, node, offset), b, node, offset)) < usize::MAX,
    ensures
        visible_page::<S>(mapped::<S>(v, b, node, offset, flags, identities), b, n, p) == visible_page::<S>(v, b, n, p),
        cached::<S>(mapped::<S>(v, b, node, offset, flags, identities), b, node, offset),
{
    let loaded = faulted::<S>(v, b, node, offset);
    lemma_faulted::<S>(v, b, node, offset);
    lemma_faulted_own::<S>(v, b, node, offset, n, p);
    let ready = if copies(v, b, node, offset, flags) {
        copied::<S>(loaded, b, node, offset, identities)
    } else {
        loaded
    };
    if copies(v, b, node, offset, flags) {
        lemma_copied::<S>(loaded, b, node, offset, identities);
        lemma_copied_visible::<S>(loaded, b, node, offset, identities, b, n, p);
    }
    let page = page_at::<S>(ready, b, node, offset);
    lemma_mapped_frame::<S>(v, b, node, offset, flags, identities);
    lemma_activated_visible::<S>(ready, b, (node, offset), page, b, n, p);
    lemma_activated_visible::<S>(ready, b, (node, offset), page, b, node, offset);
    lemma_swept_visible::<S>(activated(ready, b, (node, offset), page), b, n, p);
    lemma_swept_visible::<S>(activated(ready, b, (node, offset), page), b, node, offset);
}

/// Facts of the state in which a mapping is counted.
proof fn lemma_mapped_frame<S: ForkableNodeStore>(v: CacheView<Identity<S>>, b: u64, node: NodeId, offset: u64, flags: MapFlags, identities: int)
    requires
        v.wf(),
        v.branches.contains_key(b),
        v.next_page < u64::MAX - 1,
        page_start(offset),
        identity_at::<S>(v, b, node, offset / 4096) is Some,
        copies(v, b, node, offset, flags) ==> renamed::<S>(v.branches[b].identities, identities, node, offset / 4096),
        active_count(v, b, page_at::<S>(faulted::<S>(v, b, node, offset), b, node, offset)) < usize::MAX,
    ensures
        ({
            let loaded = faulted::<S>(v, b, node, offset);
            let ready = if copies(v, b, node, offset, flags) {
                copied::<S>(loaded, b, node, offset, identities)
            } else {
                loaded
            };
            let page = page_at::<S>(ready, b, node, offset);
            &&& ready.sound()
            &&& ready.branches.contains_key(b)
            &&& ready.branches[b].active == v.branches[b].active
            &&& cached::<S>(ready, b, node, offset)
            &&& ready.frames.contains_key(page)
            &&& copies(v, b, node, offset, flags) ==> !v.branches[b].active.contains_key(page)
            &&& active_count(ready, b, page) < usize::MAX
            &&& activated(ready, b, (node, offset), page).sound()
            &&& mapped::<S>(v, b, node, offset, flags, identities).wf()
            &&& mapped::<S>(v, b, node, offset, flags, identities).frames.contains_key(page)
            &&& page_at::<S>(mapped::<S>(v, b, node, offset, flags, identities), b, node, offset) == page
        }),
{
    let loaded = faulted::<S>(v, b, node, offset);
    lemma_faulted::<S>(v, b, node, offset);
    let ready = if copies(v, b, node, offset, flags) {
        copied::<S>(loaded, b, node, offset, identities)
    } else {
        loaded
    };
    if copies(v, b, node, offset, flags) {
        lemma_copied::<S>(loaded, b, node, offset, identities);
    }
    let page = page_at::<S>(ready, b, node, offset);
    assert(ready.pages.contains_key(identity_at::<S>(ready, b, node, offset / 4096)->Some_0));
    assert(ready.frames.contains_key(page));
    if copies(v, b, node, offset, flags) {
        assert(page == loaded.next_page);
        if v.branches[b].active.contains_key(page) {
            assert(v.frames.contains_key(page));
        }
    }
    lemma_activated(ready, b, (node, offset), page);
}

/// Nor does what the other branches of a coherent cache see, but where the store gave two branches
/// the same new identity.
pub proof fn lemma_mapped_other<S: ForkableNodeStore>(
    v: CacheView<Identity<S>>,
    b: u64,
    node: NodeId,
    offset: u64,
    flags: MapFlags,
    identities: int,
    x: u64,
    n: NodeId,
    p: u64,
)
    requires
        v.wf(),
        coherent::<S>(v),
        v.branches.contains_key(b),
        v.branches.contains_key(x),
        x != b,
        v.next_page < u64::MAX - 1,
        page_start(offset),
        page_start(p),
        identity_at::<S>(v, b, node, offset / 4096) is Some,
        copies(v, b, node, offset, flags) ==> renamed::<S>(v.branches[b].identities, identities, node, offset / 4096),
        copies(v, b, node, offset, flags) && n == node && p == offset ==> identity_at::<S>(v, x, n, p / 4096) != identity_of::<S>(
            identities,
            node,
            offset / 4096,
        ),
        active_count(v, b, page_at::<S>(faulted::<S>(v, b, node, offset), b, node, offset)) < usize::MAX,
    ensures
        visible_page::<S>(mapped::<S>(v, b, node, offset, flags, identities), x, n, p) == visible_page::<S>(v, x, n, p),
{
    let loaded = faulted::<S>(v, b, node, offset);
    lemma_faulted::<S>(v, b, node, offset);
    lemma_faulted_visible::<S>(v, b, node, offset, x, n, p);
    let ready = if copies(v, b, node, offset, flags) {
        copied::<S>(loaded, b, node, offset, identities)
    } else {
        loaded
    };
    if copies(v, b, node, offset, flags) {
        lemma_copied_visible::<S>(loaded, b, node, offset, identities, x, n, p);
    }
    let page = page_at::<S>(ready, b, node, offset);
    lemma_mapped_frame::<S>(v, b, node, offset, flags, identities);
    lemma_activated_visible::<S>(ready, b, (node, offset), page, x, n, p);
    lemma_swept_visible::<S>(activated(ready, b, (node, offset), page), x, n, p);
}

/// Whether writing `len` bytes at `offset` of a node reaches the page of `n` at `p`.
pub open spec fn reached(node: NodeId, offset: int, len: int, n: NodeId, p: u64) -> bool {
    n == node && page_start(p) && len > 0 && p < offset + len && offset < p + 4096
}

/// A page of a file, once `data` are written at `offset` of the file.
pub open spec fn page_overlaid(page: Seq<u8>, start: int, offset: int, data: Seq<u8>) -> Seq<u8> {
    Seq::new(
        4096,
        |i: int|
            if offset <= start + i < offset + data.len() {
                data[start + i - offset]
            } else {
                page[i]
            },
    )
}

/// Whether `w` is a cache in which branch `b` has written `data` at `offset` of the node, where
/// before there was `v`: `b` sees the written bytes and nothing else anew, every other branch is
/// as it was, and sees what it saw unless the store gave both the same new identity.
pub open spec fn written_through<S: ForkableNodeStore>(
    v: CacheView<Identity<S>>,
    w: CacheView<Identity<S>>,
    b: u64,
    node: NodeId,
    offset: int,
    data: Seq<u8>,
) -> bool {
    let len = data.len() as int;
    &&& w.id == v.id
    &&& w.next_branch == v.next_branch
    &&& w.branches.dom() == v.branches.dom()
    &&& forall|x: u64| x != b && #[trigger] v.branches.contains_key(x) ==> w.branches[x] == v.branches[x]
    &&& w.branches[b].nodes == v.branches[b].nodes
    &&& w.branches[b].open == v.branches[b].open
    &&& w.branches[b].active == v.branches[b].active
    &&& forall|k: PageKey| #[trigger] w.branches[b].exclusive.contains(k) <==> v.branches[b].exclusive.contains(k) || reached(node, offset, len, k.0, k.1)
    &&& forall|k: PageKey| #[trigger] w.branches[b].dirty.contains_key(k) <==> v.branches[b].dirty.contains_key(k) || reached(node, offset, len, k.0, k.1)
    &&& forall|k: PageKey| #[trigger]
        w.branches[b].dirty.contains_key(k) ==> w.branches[b].dirty[k] == (reached(node, offset, len, k.0, k.1) || v.branches[b].dirty[k])
    &&& forall|n: NodeId, p: u64| #![trigger identity_at::<S>(w, b, n, p / 4096)]
        page_start(p) && !reached(node, offset, len, n, p) ==> identity_at::<S>(w, b, n, p / 4096) == identity_at::<S>(v, b, n, p / 4096)
    &&& forall|n: NodeId, p: u64| #![trigger visible_page::<S>(w, b, n, p)]
        page_start(p) ==> visible_page::<S>(w, b, n, p) == (if reached(node, offset, len, n, p) {
            page_overlaid(visible_page::<S>(v, b, n, p), p as int, offset, data)
        } else {
            visible_page::<S>(v, b, n, p)
        })
    &&& coherent::<S>(v) ==> coherent::<S>(w) && forall|x: u64, n: NodeId, p: u64| #![trigger visible_page::<S>(w, x, n, p)]
        x != b && v.branches.contains_key(x) && page_start(p) ==> {
            ||| visible_page::<S>(w, x, n, p) == visible_page::<S>(v, x, n, p)
            ||| reached(node, offset, len, n, p) && identity_at::<S>(w, x, n, p / 4096) == identity_at::<S>(w, b, n, p / 4096)
        }
}

/// The cache once branch `b` has mapped a page, written to it and given up the mapping.
pub open spec fn page_stored<S: ForkableNodeStore>(
    v: CacheView<Identity<S>>,
    b: u64,
    node: NodeId,
    offset: u64,
    identities: int,
    within: int,
    data: Seq<u8>,
) -> CacheView<Identity<S>> {
    let flags = MapFlags { readable: true, writable: true };
    let held = mapped::<S>(v, b, node, offset, flags, identities);
    let page = page_at::<S>(held, b, node, offset);
    unmapped(page_written(held, page, within, data), b, MappingView { cache_id: v.id, branch: b, key: (node, offset), flags, page })
}

/// What branch `x` sees once branch `b` has stored bytes in a page, against what it saw while the
/// page was mapped.
proof fn lemma_page_stored_visible<S: ForkableNodeStore>(
    v: CacheView<Identity<S>>,
    b: u64,
    node: NodeId,
    offset: u64,
    identities: int,
    within: int,
    data: Seq<u8>,
    x: u64,
    n: NodeId,
    p: u64,
)
    requires
        v.wf(),
        v.branches.contains_key(b),
        v.branches.contains_key(x),
        v.next_page < u64::MAX - 1,
        page_start(offset),
        page_start(p),
        identity_at::<S>(v, b, node, offset / 4096) is Some,
        copies(v, b, node, offset, MapFlags { readable: true, writable: true }) ==> renamed::<S>(
            v.branches[b].identities,
            identities,
            node,
            offset / 4096,
        ),
        active_count(v, b, page_at::<S>(faulted::<S>(v, b, node, offset), b, node, offset)) < usize::MAX,
        0 <= within,
        within + data.len() <= 4096,
    ensures
        ({
            let held = mapped::<S>(v, b, node, offset, MapFlags { readable: true, writable: true }, identities);
            let w = page_stored::<S>(v, b, node, offset, identities, within, data);
            &&& w.pages == held.pages
            &&& identity_at::<S>(w, x, n, p / 4096) == identity_at::<S>(held, x, n, p / 4096)
            &&& visible_page::<S>(w, x, n, p) == (if n == node && p == offset && identity_at::<S>(held, x, n, p / 4096) == identity_at::<S>(
                held,
                b,
                node,
                offset / 4096,
            ) {
                laid_over(visible_page::<S>(held, x, n, p), within, data)
            } else {
                visible_page::<S>(held, x, n, p)
            })
        }),
{
    let flags = MapFlags { readable: true, writable: true };
    let held = mapped::<S>(v, b, node, offset, flags, identities);
    lemma_mapped_frame::<S>(v, b, node, offset, flags, identities);
    lemma_mapped_own::<S>(v, b, node, offset, flags, identities, node, offset);
    let page = page_at::<S>(held, b, node, offset);
    let stored = page_written(held, page, within, data);
    let mapping = MappingView { cache_id: v.id, branch: b, key: (node, offset), flags, page };
    let loose = CacheView {
        branches: stored.branches.insert(b, unmapped(stored, b, mapping).branches[b]),
        ..stored
    };
    let w = page_stored::<S>(v, b, node, offset, identities, within, data);
    assert(w == loose.swept());
    assert(held.branches[b].active.contains_key(page));
    assert(loose.sound()) by {
        assert forall|i: Identity<S>| #[trigger] loose.pages.contains_key(i) implies loose.frames.contains_key(loose.pages[i]) by {
            assert(held.pages.contains_key(i));
        }
        assert forall|a: u64, q: u64| #![trigger loose.branches[a].active.contains_key(q)]
            loose.branches.contains_key(a) && loose.branches[a].active.contains_key(q) implies loose.frames.contains_key(q) && loose.branches[a].active[q] > 0 by {
            assert(held.branches[a].active.contains_key(q));
        }
        assert forall|a: u64, k: PageKey| #![trigger loose.branches[a].dirty.contains_key(k)]
            loose.branches.contains_key(a) && loose.branches[a].dirty.contains_key(k) implies k.1 % 4096 == 0 by {
            if !(a == b && k == (node, offset)) {
                assert(held.branches[a].dirty.contains_key(k));
            }
        }
    }
    lemma_swept_visible::<S>(loose, x, n, p);
    if cached::<S>(held, x, n, p) {
        let i = identity_at::<S>(held, b, node, offset / 4096)->Some_0;
        let j = identity_at::<S>(held, x, n, p / 4096)->Some_0;
        assert(held.pages.contains_key(i) && held.pages[i] == page);
        assert(held.pages.contains_key(j));
        if held.pages[j] == page {
            assert(held.pages[i] == held.pages[j]);
            lemma_same_identity_same_page::<S>(held, x, b, n, node, p, offset);
        }
    }
}

/// Storing bytes in a page is a write through the cache.
pub proof fn lemma_page_stored<S: ForkableNodeStore>(
    v: CacheView<Identity<S>>,
    b: u64,
    node: NodeId,
    offset: u64,
    identities: int,
    within: int,
    data: Seq<u8>,
)
    requires
        v.wf(),
        v.branches.contains_key(b),
        v.next_page < u64::MAX - 1,
        page_start(offset),
        identity_at::<S>(v, b, node, offset / 4096) is Some,
        copies(v, b, node, offset, MapFlags { readable: true, writable: true }) ==> renamed::<S>(
            v.branches[b].identities,
            identities,
            node,
            offset / 4096,
        ),
        active_count(v, b, page_at::<S>(faulted::<S>(v, b, node, offset), b, node, offset)) < usize::MAX,
        0 <= within,
        within + data.len() <= 4096,
        data.len() > 0,
    ensures
        written_through::<S>(v, page_stored::<S>(v, b, node, offset, identities, within, data), b, node, offset + within, data),
{
    let flags = MapFlags { readable: true, writable: true };
    let held = mapped::<S>(v, b, node, offset, flags, identities);
    let w = page_stored::<S>(v, b, node, offset, identities, within, data);
    let at = offset + within;
    let len = data.len() as int;
    lemma_mapped_frame::<S>(v, b, node, offset, flags, identities);
    assert forall|n: NodeId, p: u64| page_start(p) implies (reached(node, at, len, n, p) <==> n == node && p == offset) by {}
    let page = page_at::<S>(held, b, node, offset);
    assert(w.branches.dom() =~= v.branches.dom());
    assert(w.branches[b].active =~= v.branches[b].active);
    assert forall|x: u64| x != b && #[trigger] v.branches.contains_key(x) implies w.branches[x] == v.branches[x] by {}
    assert forall|n: NodeId, p: u64| #![trigger visible_page::<S>(w, b, n, p)] page_start(p) implies visible_page::<S>(w, b, n, p) == (if reached(node, at, len, n, p) {
        page_overlaid(visible_page::<S>(v, b, n, p), p as int, at, data)
    } else {
        visible_page::<S>(v, b, n, p)
    }) by {
        lemma_page_stored_visible::<S>(v, b, node, offset, identities, within, data, b, n, p);
        lemma_mapped_own::<S>(v, b, node, offset, flags, identities, n, p);
        if n == node && p == offset {
            lemma_visible_page_len::<S>(v, b, n, p);
            assert(laid_over(visible_page::<S>(v, b, n, p), within, data) =~= page_overlaid(visible_page::<S>(v, b, n, p), p as int, at, data));
        }
    }
    assert forall|n: NodeId, p: u64| #![trigger identity_at::<S>(w, b, n, p / 4096)]
        page_start(p) && !reached(node, at, len, n, p) implies identity_at::<S>(w, b, n, p / 4096) == identity_at::<S>(v, b, n, p / 4096) by {
        assert(!(n == node && p / 4096 == offset / 4096));
    }
    if coherent::<S>(v) {
        assert forall|x: u64, n: NodeId, p: u64| #![trigger visible_page::<S>(w, x, n, p)] x != b && v.branches.contains_key(x) && page_start(p) implies {
            ||| visible_page::<S>(w, x, n, p) == visible_page::<S>(v, x, n, p)
            ||| reached(node, at, len, n, p) && identity_at::<S>(w, x, n, p / 4096) == identity_at::<S>(w, b, n, p / 4096)
        } by {
            lemma_page_stored_other::<S>(v, b, node, offset, identities, within, data, x, n, p);
        }
        assert forall|x: u64, y: u64, n: NodeId, p: u64|
            #![trigger visible_page::<S>(w, x, n, p), visible_page::<S>(w, y, n, p)]
            w.branches.contains_key(x) && w.branches.contains_key(y) && page_start(p) && identity_at::<S>(w, x, n, p / 4096) is Some
                && identity_at::<S>(w, x, n, p / 4096) == identity_at::<S>(w, y, n, p / 4096) implies visible_page::<S>(w, x, n, p) == visible_page::<S>(w, y, n, p) by {
            if !cached::<S>(w, x, n, p) {
                lemma_page_stored_visible::<S>(v, b, node, offset, identities, within, data, b, node, offset);
                lemma_mapped_own::<S>(v, b, node, offset, flags, identities, node, offset);
                if n == node && p == offset {
                    assert(cached::<S>(w, b, node, offset));
                }
                lemma_page_stored_other::<S>(v, b, node, offset, identities, within, data, x, n, p);
                lemma_page_stored_other::<S>(v, b, node, offset, identities, within, data, y, n, p);
                assert(visible_page::<S>(v, x, n, p) == visible_page::<S>(v, y, n, p));
            }
        }
    }
}

/// What another branch of a coherent cache sees once branch `b` has stored bytes in a page.
proof fn lemma_page_stored_other<S: ForkableNodeStore>(
    v: CacheView<Identity<S>>,
    b: u64,
    node: NodeId,
    offset: u64,
    identities: int,
    within: int,
    data: Seq<u8>,
    x: u64,
    n: NodeId,
    p: u64,
)
    requires
        v.wf(),
        coherent::<S>(v),
        v.branches.contains_key(b),
        v.branches.contains_key(x),
        v.next_page < u64::MAX - 1,
        page_start(offset),
        page_start(p),
        identity_at::<S>(v, b, node, offset / 4096) is Some,
        copies(v, b, node, offset, MapFlags { readable: true, writable: true }) ==> renamed::<S>(
            v.branches[b].identities,
            identities,
            node,
            offset / 4096,
        ),
        active_count(v, b, page_at::<S>(faulted::<S>(v, b, node, offset), b, node, offset)) < usize::MAX,
        0 <= within,
        within + data.len() <= 4096,
    ensures
        ({
            let w = page_stored::<S>(v, b, node, offset, identities, within, data);
            &&& x != b || !(n == node && p == offset) ==> identity_at::<S>(w, x, n, p / 4096) == identity_at::<S>(v, x, n, p / 4096)
            &&& {
                ||| visible_page::<S>(w, x, n, p) == visible_page::<S>(v, x, n, p)
                ||| n == node && p == offset && identity_at::<S>(w, x, n, p / 4096) == identity_at::<S>(w, b, n, p / 4096)
            }
        }),
{
    let flags = MapFlags { readable: true, writable: true };
    let held = mapped::<S>(v, b, node, offset, flags, identities);
    let w = page_stored::<S>(v, b, node, offset, identities, within, data);
    lemma_mapped_frame::<S>(v, b, node, offset, flags, identities);
    lemma_page_stored_visible::<S>(v, b, node, offset, identities, within, data, x, n, p);
    lemma_page_stored_visible::<S>(v, b, node, offset, identities, within, data, b, n, p);
    if x == b {
        lemma_mapped_own::<S>(v, b, node, offset, flags, identities, n, p);
        assert(n == node && p / 4096 == offset / 4096 ==> p == offset);
    } else {
        assert(identity_at::<S>(w, x, n, p / 4096) == identity_at::<S>(v, x, n, p / 4096));
        if !(n == node && p == offset && identity_at::<S>(w, x, n, p / 4096) == identity_at::<S>(w, b, n, p / 4096)) {
            lemma_mapped_other::<S>(v, b, node, offset, flags, identities, x, n, p);
        }
    }
}

/// Two writes, the second of which begins where the first ends at the end of a page, are one.
pub proof fn lemma_written_through_twice<S: ForkableNodeStore>(
    v: CacheView<Identity<S>>,
    w: CacheView<Identity<S>>,
    x: CacheView<Identity<S>>,
    b: u64,
    node: NodeId,
    offset: int,
    first: Seq<u8>,
    second: Seq<u8>,
)
    requires
        v.branches.contains_key(b),
        written_through::<S>(v, w, b, node, offset, first),
        written_through::<S>(w, x, b, node, offset + first.len(), second),
        first.len() == 0 || (offset + first.len()) % 4096 == 0,
    ensures
        written_through::<S>(v, x, b, node, offset, first + second),
{
    let all = first + second;
    let one = first.len() as int;
    let two = second.len() as int;
    let len = all.len() as int;
    assert forall|n: NodeId, p: u64| #![trigger reached(node, offset, len, n, p)]
        reached(node, offset, len, n, p) <==> reached(node, offset, one, n, p) || reached(node, offset + one, two, n, p) by {}
    assert forall|n: NodeId, p: u64| #![trigger reached(node, offset, one, n, p)]
        !(reached(node, offset, one, n, p) && reached(node, offset + one, two, n, p)) by {}
    assert(v.branches.contains_key(b) && w.branches.contains_key(b));
    assert forall|y: u64| y != b && #[trigger] v.branches.contains_key(y) implies x.branches[y] == v.branches[y] by {
        assert(w.branches.dom().contains(y));
        assert(w.branches.contains_key(y));
    }
    assert forall|k: PageKey| #[trigger] x.branches[b].exclusive.contains(k) <==> v.branches[b].exclusive.contains(k) || reached(node, offset, len, k.0, k.1) by {
        assert(w.branches[b].exclusive.contains(k) <==> v.branches[b].exclusive.contains(k) || reached(node, offset, one, k.0, k.1));
    }
    assert forall|k: PageKey| #[trigger] x.branches[b].dirty.contains_key(k) <==> v.branches[b].dirty.contains_key(k) || reached(node, offset, len, k.0, k.1) by {
        assert(w.branches[b].dirty.contains_key(k) <==> v.branches[b].dirty.contains_key(k) || reached(node, offset, one, k.0, k.1));
    }
    assert forall|k: PageKey| #[trigger] x.branches[b].dirty.contains_key(k) implies x.branches[b].dirty[k] == (reached(node, offset, len, k.0, k.1)
        || v.branches[b].dirty[k]) by {
        assert(w.branches[b].dirty.contains_key(k) <==> v.branches[b].dirty.contains_key(k) || reached(node, offset, one, k.0, k.1));
        assert(reached(node, offset, len, k.0, k.1) <==> reached(node, offset, one, k.0, k.1) || reached(node, offset + one, two, k.0, k.1));
    }
    assert forall|n: NodeId, p: u64| #![trigger identity_at::<S>(x, b, n, p / 4096)] page_start(p) && !reached(node, offset, len, n, p) implies identity_at::<S>(
        x,
        b,
        n,
        p / 4096,
    ) == identity_at::<S>(v, b, n, p / 4096) by {
        assert(identity_at::<S>(w, b, n, p / 4096) == identity_at::<S>(v, b, n, p / 4096));
    }
    assert forall|n: NodeId, p: u64| #![trigger visible_page::<S>(x, b, n, p)] page_start(p) implies visible_page::<S>(x, b, n, p) == (if reached(node, offset, len, n, p) {
        page_overlaid(visible_page::<S>(v, b, n, p), p as int, offset, all)
    } else {
        visible_page::<S>(v, b, n, p)
    }) by {
        let seen = visible_page::<S>(v, b, n, p);
        let middle = visible_page::<S>(w, b, n, p);
        if reached(node, offset, one, n, p) {
            assert(page_overlaid(seen, p as int, offset, first) =~= page_overlaid(seen, p as int, offset, all));
        } else if reached(node, offset + one, two, n, p) {
            assert(page_overlaid(seen, p as int, offset + one, second) =~= page_overlaid(seen, p as int, offset, all));
        }
    }
    if coherent::<S>(v) {
        assert forall|y: u64, n: NodeId, p: u64| #![trigger visible_page::<S>(x, y, n, p)] y != b && v.branches.contains_key(y) && page_start(p) implies {
            ||| visible_page::<S>(x, y, n, p) == visible_page::<S>(v, y, n, p)
            ||| reached(node, offset, len, n, p) && identity_at::<S>(x, y, n, p / 4096) == identity_at::<S>(x, b, n, p / 4096)
        } by {
            assert(w.branches.dom().contains(y));
            assert(w.branches.contains_key(y));
            assert(w.branches[y] == v.branches[y]);
            assert(x.branches[y] == w.branches[y]);
            let middle = visible_page::<S>(w, y, n, p);
            if middle != visible_page::<S>(v, y, n, p) {
                assert(reached(node, offset, one, n, p));
                assert(!reached(node, offset + one, two, n, p));
                assert(identity_at::<S>(x, b, n, p / 4096) == identity_at::<S>(w, b, n, p / 4096));
            }
        }
    }
}

/// Writing nothing changes nothing.
pub proof fn lemma_written_nothing<S: ForkableNodeStore>(v: CacheView<Identity<S>>, b: u64, node: NodeId, offset: int)
    ensures
        written_through::<S>(v, v, b, node, offset, Seq::empty()),
{
}

/// The cache once branch `b` has looked at a page.
pub open spec fn paged_in<S: ForkableNodeStore>(v: CacheView<Identity<S>>, b: u64, node: NodeId, offset: u64) -> CacheView<Identity<S>> {
    CacheView { known: v.known.insert((node, offset)), ..faulted::<S>(v, b, node, offset) }
}

/// The cache once branch `b` has looked at `count` pages from `first` on.
pub open spec fn pages_in<S: ForkableNodeStore>(v: CacheView<Identity<S>>, b: u64, node: NodeId, first: u64, count: nat) -> CacheView<Identity<S>>
    decreases count,
{
    if count == 0 {
        v
    } else {
        paged_in::<S>(pages_in::<S>(v, b, node, first, (count - 1) as nat), b, node, (first + 4096 * (count - 1)) as u64)
    }
}

/// Mapping a page for reading and giving the mapping up leaves the page in the cache, and nothing
/// else changed.
pub proof fn lemma_looked_at<S: ForkableNodeStore>(v: CacheView<Identity<S>>, b: u64, node: NodeId, offset: u64, identities: int)
    requires
        v.wf(),
        v.branches.contains_key(b),
        v.next_page < u64::MAX - 1,
        page_start(offset),
        identity_at::<S>(v, b, node, offset / 4096) is Some,
        active_count(v, b, page_at::<S>(faulted::<S>(v, b, node, offset), b, node, offset)) < usize::MAX,
    ensures
        ({
            let flags = MapFlags { readable: true, writable: false };
            let held = mapped::<S>(v, b, node, offset, flags, identities);
            let page = page_at::<S>(held, b, node, offset);
            let mapping = MappingView { cache_id: v.id, branch: b, key: (node, offset), flags, page };
            &&& unmapped(held, b, mapping) == paged_in::<S>(v, b, node, offset)
            &&& held.frames[page] == visible_page::<S>(v, b, node, offset)
        }),
{
    let flags = MapFlags { readable: true, writable: false };
    let loaded = faulted::<S>(v, b, node, offset);
    let held = mapped::<S>(v, b, node, offset, flags, identities);
    lemma_faulted::<S>(v, b, node, offset);
    lemma_mapped_frame::<S>(v, b, node, offset, flags, identities);
    lemma_mapped_own::<S>(v, b, node, offset, flags, identities, node, offset);
    let page = page_at::<S>(held, b, node, offset);
    let mapping = MappingView { cache_id: v.id, branch: b, key: (node, offset), flags, page };
    let w = unmapped(held, b, mapping);
    let expected = paged_in::<S>(v, b, node, offset);
    let counted = activated(loaded, b, (node, offset), page);
    assert forall|q: u64| #[trigger] counted.frames.contains_key(q) implies counted.referenced(q) by {
        assert(loaded.frames.contains_key(q));
        lemma_still_referenced(loaded, counted, q);
    }
    lemma_swept_is_tidy(counted);
    assert(w.branches[b] =~= v.branches[b]);
    assert(w.branches =~= v.branches);
    assert forall|q: u64| #[trigger] expected.frames.contains_key(q) implies expected.referenced(q) by {
        assert(loaded.frames.contains_key(q));
        lemma_still_referenced(loaded, expected, q);
    }
    lemma_swept_is_tidy(expected);
    assert(w =~= expected) by {
        assert(w.frames =~= expected.swept().frames) by {
            assert forall|q: u64| w.frames.contains_key(q) <==> expected.frames.contains_key(q) by {
                let loose = CacheView { branches: w.branches, ..held };
                assert(loose =~= expected);
            }
        }
    }
}

/// Looking at a page keeps a coherent cache coherent, and changes nothing that any branch sees.
pub proof fn lemma_paged_in<S: ForkableNodeStore>(v: CacheView<Identity<S>>, b: u64, node: NodeId, offset: u64)
    requires
        v.wf(),
        v.branches.contains_key(b),
        v.next_page < u64::MAX - 1,
        page_start(offset),
        identity_at::<S>(v, b, node, offset / 4096) is Some,
    ensures
        forall|n: NodeId, p: u64| #![trigger visible_page::<S>(paged_in::<S>(v, b, node, offset), b, n, p)]
            page_start(p) ==> visible_page::<S>(paged_in::<S>(v, b, node, offset), b, n, p) == visible_page::<S>(v, b, n, p),
        coherent::<S>(v) ==> {
            &&& coherent::<S>(paged_in::<S>(v, b, node, offset))
            &&& forall|x: u64, n: NodeId, p: u64| #![trigger visible_page::<S>(paged_in::<S>(v, b, node, offset), x, n, p)]
                v.branches.contains_key(x) && page_start(p) ==> visible_page::<S>(paged_in::<S>(v, b, node, offset), x, n, p) == visible_page::<S>(v, x, n, p)
        },
{
    let loaded = faulted::<S>(v, b, node, offset);
    let w = paged_in::<S>(v, b, node, offset);
    assert forall|n: NodeId, p: u64| #![trigger visible_page::<S>(w, b, n, p)] page_start(p) implies visible_page::<S>(w, b, n, p) == visible_page::<S>(v, b, n, p) by {
        lemma_faulted_own::<S>(v, b, node, offset, n, p);
        assert(visible_page::<S>(w, b, n, p) == visible_page::<S>(loaded, b, n, p));
    }
    if coherent::<S>(v) {
        assert forall|x: u64, n: NodeId, p: u64| #![trigger visible_page::<S>(w, x, n, p)] v.branches.contains_key(x) && page_start(p) implies visible_page::<S>(
            w,
            x,
            n,
            p,
        ) == visible_page::<S>(v, x, n, p) by {
            lemma_faulted_visible::<S>(v, b, node, offset, x, n, p);
            assert(visible_page::<S>(w, x, n, p) == visible_page::<S>(loaded, x, n, p));
        }
        assert forall|x: u64, y: u64, n: NodeId, p: u64|
            #![trigger visible_page::<S>(w, x, n, p), visible_page::<S>(w, y, n, p)]
            w.branches.contains_key(x) && w.branches.contains_key(y) && page_start(p) && identity_at::<S>(w, x, n, p / 4096) is Some
                && identity_at::<S>(w, x, n, p / 4096) == identity_at::<S>(w, y, n, p / 4096) implies visible_page::<S>(w, x, n, p) == visible_page::<S>(w, y, n, p) by {
            assert(visible_page::<S>(v, x, n, p) == visible_page::<S>(v, y, n, p));
        }
    }
}

/// The byte that branch `b` sees at a position of a node.
pub open spec fn seen_byte<S: ForkableNodeStore>(v: CacheView<Identity<S>>, b: u64, node: NodeId, position: int) -> u8 {
    visible_page::<S>(v, b, node, (position / 4096 * 4096) as u64)[position % 4096]
}

/// What a branch sees of a file, byte for byte.
pub open spec fn seen_bytes<S: ForkableNodeStore>(v: CacheView<Identity<S>>, b: u64, node: NodeId, offset: int, len: nat) -> Seq<u8> {
    Seq::new(len, |i: int| seen_byte::<S>(v, b, node, offset + i))
}

} // verus!
