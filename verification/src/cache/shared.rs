//! The one logical file-page cache of a filesystem lineage, shared by all its branches.

use vstd::prelude::*;

use crate::bytes::{copy_slice, lay_over, zero_bytes};
#[allow(unused_imports)]
use crate::bytes::{bytes_at, laid_over};
use crate::cache::dirty::{DirtyBranch, PageKey};
#[allow(unused_imports)]
use crate::cache::dirty::dirty_pages;
use crate::cache::store::{fully_written, readable_len, CacheError, ForkableNodeStore, MapFlags, NodeId};
#[allow(unused_imports)]
use crate::cache::store::{
    answered, closing_fails, file_written, fork_fails, identity_fails, identity_of, len_fails, opening_fails, page_of, prepare_fails,
    read_fails, readable, store_fails, synced_bytes, write_answered, NodeStore,
};
use crate::census::Census;
#[allow(unused_imports)]
use crate::census::{held, held_twice};
use crate::io::IoError;
use crate::ordered::{OrdMap, OrdSet};
#[allow(unused_imports)]
use crate::ordered::{among, ascending, lemma_among, Key};

verus! {

/// The authority to use one branch of a page cache.
#[derive(Clone, Copy, Debug, Eq, Ord, PartialEq, PartialOrd, Structural)]
pub struct CacheBranchId(u64);

impl CacheBranchId {
    /// The number behind the identity.
    pub closed spec fn number(self) -> u64 {
        self.0
    }
}

/// One page of a branch, mapped into a DAX window.
#[derive(Debug)]
pub struct DaxPageMapping {
    cache_id: u64,
    branch: CacheBranchId,
    key: PageKey,
    flags: MapFlags,
    page: u64,
}

/// What a mapping refers to.
#[verifier::ext_equal]
pub struct MappingView {
    pub cache_id: u64,
    pub branch: u64,
    pub key: PageKey,
    pub flags: MapFlags,
    pub page: u64,
}

impl View for DaxPageMapping {
    type V = MappingView;

    closed spec fn view(&self) -> MappingView {
        MappingView { cache_id: self.cache_id, branch: self.branch.0, key: self.key, flags: self.flags, page: self.page }
    }
}

impl DaxPageMapping {
    pub fn node(&self) -> (node: NodeId)
        ensures
            node == self@.key.0,
    {
        self.key.0
    }

    pub fn file_offset(&self) -> (offset: u64)
        ensures
            offset == self@.key.1,
    {
        self.key.1
    }

    pub fn flags(&self) -> (flags: MapFlags)
        ensures
            flags == self@.flags,
    {
        self.flags
    }

    pub fn page_id(&self) -> (page: u64)
        ensures
            page == self@.page,
    {
        self.page
    }
}

/// Physical-page accounting over branches of a cache.
#[derive(Clone, Copy, Debug, Eq, PartialEq, Structural)]
pub struct CachePageAccounting {
    pub resident_pages: usize,
    pub shared_pages: usize,
}

struct CacheBranch<S> {
    store: S,
    open_nodes: OrdMap<NodeId, usize>,
    active_pages: OrdMap<u64, usize>,
    exclusive_pages: OrdSet<PageKey>,
    dirty_pages: DirtyBranch,
}

/// What one branch holds.
#[verifier::ext_equal]
pub struct BranchView {
    /// The contents of the store's nodes.
    pub nodes: Map<NodeId, Seq<u8>>,
    /// The page identities that the store gives out.
    pub identities: int,
    /// How often each node is open.
    pub open: Map<NodeId, usize>,
    /// How often each page is mapped.
    pub active: Map<u64, usize>,
    /// The pages that belong to this branch alone.
    pub exclusive: Set<PageKey>,
    /// The pages marked dirty or clean.
    pub dirty: Map<PageKey, bool>,
}

impl<S: ForkableNodeStore> View for CacheBranch<S> {
    type V = BranchView;

    closed spec fn view(&self) -> BranchView {
        BranchView {
            nodes: self.store.nodes(),
            identities: self.store.identities(),
            open: self.open_nodes@,
            active: self.active_pages@,
            exclusive: self.exclusive_pages@,
            dirty: self.dirty_pages@,
        }
    }
}

/// The identities of a store's pages.
pub type Identity<S> = <<S as ForkableNodeStore>::PageIdentity as View>::V;

/// What a cache holds.
#[verifier::reject_recursive_types(I)]
#[verifier::ext_equal]
pub struct CacheView<I> {
    pub id: u64,
    pub next_branch: u64,
    /// The number of the first page that the cache ever had.
    pub first_page: u64,
    pub next_page: u64,
    pub branches: Map<u64, BranchView>,
    /// The page that stands for each page identity.
    pub pages: Map<I, u64>,
    /// The contents of each page.
    pub frames: Map<u64, Seq<u8>>,
    /// The pages of nodes that were ever mapped.
    pub known: Set<PageKey>,
}

impl<I> CacheView<I> {
    /// Whether an identity or a mapping refers to the page.
    pub open spec fn referenced(self, page: u64) -> bool {
        ||| exists|i: I| self.pages.contains_key(i) && #[trigger] self.pages[i] == page
        ||| exists|b: u64| #[trigger] self.branches.contains_key(b) && self.branches[b].active.contains_key(page)
    }

    /// The cache without the pages to which nothing refers.
    pub open spec fn swept(self) -> Self {
        CacheView { frames: self.frames.restrict(Set::new(|page: u64| self.referenced(page))), ..self }
    }

    /// Whether identities and mappings refer only to pages that are there, each identity to a page
    /// of its own.
    pub open spec fn sound(self) -> bool {
        &&& forall|b: u64| #[trigger] self.branches.contains_key(b) ==> b < self.next_branch
        &&& forall|i: I| #[trigger] self.pages.contains_key(i) ==> self.frames.contains_key(self.pages[i])
        &&& forall|i: I, j: I| self.pages.contains_key(i) && self.pages.contains_key(j) && #[trigger] self.pages[i] == #[trigger] self.pages[j] ==> i == j
        &&& forall|b: u64, page: u64| #![trigger self.branches[b].active.contains_key(page)]
            self.branches.contains_key(b) && self.branches[b].active.contains_key(page) ==> self.frames.contains_key(page) && self.branches[b].active[page] > 0
        &&& forall|page: u64| #[trigger] self.frames.contains_key(page) ==> self.first_page <= page && page < self.next_page && self.frames[page].len() == 4096
        &&& self.first_page <= self.next_page
        &&& forall|k: PageKey| #[trigger] self.known.contains(k) ==> k.1 % 4096 == 0
        &&& forall|b: u64, k: PageKey| #![trigger self.branches[b].dirty.contains_key(k)]
            self.branches.contains_key(b) && self.branches[b].dirty.contains_key(k) ==> k.1 % 4096 == 0
    }

    /// Whether something refers to each page.
    pub open spec fn tidy(self) -> bool {
        forall|page: u64| #[trigger] self.frames.contains_key(page) ==> self.referenced(page)
    }

    pub open spec fn wf(self) -> bool {
        self.sound() && self.tidy()
    }
}

/// The identity that branch `b` sees for a page of a node.
pub open spec fn identity_at<S: ForkableNodeStore>(v: CacheView<Identity<S>>, b: u64, node: NodeId, page: u64) -> Option<Identity<S>> {
    identity_of::<S>(v.branches[b].identities, node, page)
}

/// Whether some branch sees the identity for the page of the node.
pub open spec fn sees<S: ForkableNodeStore>(v: CacheView<Identity<S>>, node: NodeId, page: u64, i: Identity<S>) -> bool {
    exists|b: u64| #[trigger] v.branches.contains_key(b) && identity_at::<S>(v, b, node, page) == Some(i)
}

/// The page that branch `b` sees at `offset` of a node, where it is in the cache.
pub open spec fn page_at<S: ForkableNodeStore>(v: CacheView<Identity<S>>, b: u64, node: NodeId, offset: u64) -> u64 {
    v.pages[identity_at::<S>(v, b, node, offset / 4096)->Some_0]
}

/// Whether the page that branch `b` sees at `offset` of a node is in the cache.
pub open spec fn cached<S: ForkableNodeStore>(v: CacheView<Identity<S>>, b: u64, node: NodeId, offset: u64) -> bool {
    &&& identity_at::<S>(v, b, node, offset / 4096) is Some
    &&& v.pages.contains_key(identity_at::<S>(v, b, node, offset / 4096)->Some_0)
}

/// The cache once the page that branch `b` sees is in it.
pub open spec fn faulted<S: ForkableNodeStore>(v: CacheView<Identity<S>>, b: u64, node: NodeId, offset: u64) -> CacheView<Identity<S>> {
    if cached::<S>(v, b, node, offset) {
        v
    } else {
        CacheView {
            next_page: (v.next_page + 1) as u64,
            pages: v.pages.insert(identity_at::<S>(v, b, node, offset / 4096)->Some_0, v.next_page),
            frames: v.frames.insert(v.next_page, page_of(v.branches[b].nodes[node], offset as int)),
            ..v
        }
    }
}

/// The cache once branch `b`, which now gives out `identities`, has a page of its own with the
/// contents of the page that it saw.
pub open spec fn copied<S: ForkableNodeStore>(v: CacheView<Identity<S>>, b: u64, node: NodeId, offset: u64, identities: int) -> CacheView<
    Identity<S>,
> {
    let was = identity_at::<S>(v, b, node, offset / 4096)->Some_0;
    let branch = v.branches[b];
    let owned = CacheView {
        branches: v.branches.insert(b, BranchView { identities, exclusive: branch.exclusive.insert((node, offset)), ..branch }),
        ..v
    };
    let now = identity_at::<S>(owned, b, node, offset / 4096)->Some_0;
    let pages = v.pages.insert(now, v.next_page);
    CacheView {
        next_page: (v.next_page + 1) as u64,
        pages: if sees::<S>(owned, node, offset / 4096, was) {
            pages
        } else {
            pages.remove(was)
        },
        frames: v.frames.insert(v.next_page, v.frames[v.pages[was]]),
        ..owned
    }
}

/// Whether `now` gives out what `was` did but for an identity of the one page.
pub open spec fn renamed<S: ForkableNodeStore>(was: int, now: int, node: NodeId, page: u64) -> bool {
    &&& identity_of::<S>(now, node, page) is Some
    &&& forall|n: NodeId, p: u64| !(n == node && p == page) ==> #[trigger] identity_of::<S>(now, n, p) == identity_of::<S>(was, n, p)
}

/// The cache once branch `b` has the page mapped once more.
pub open spec fn activated<I>(v: CacheView<I>, b: u64, key: PageKey, page: u64) -> CacheView<I> {
    let branch = v.branches[b];
    let count: usize = if branch.active.contains_key(page) {
        branch.active[page]
    } else {
        0
    };
    CacheView {
        branches: v.branches.insert(b, BranchView { active: branch.active.insert(page, (count + 1) as usize), ..branch }),
        known: v.known.insert(key),
        ..v
    }
}

/// Whether a mapping with these flags first needs a page of the branch's own.
pub open spec fn copies<I>(v: CacheView<I>, b: u64, node: NodeId, offset: u64, flags: MapFlags) -> bool {
    flags.writable && !v.branches[b].exclusive.contains((node, offset))
}

/// The cache once branch `b`, which now gives out `identities`, has the page mapped.
pub open spec fn mapped<S: ForkableNodeStore>(v: CacheView<Identity<S>>, b: u64, node: NodeId, offset: u64, flags: MapFlags, identities: int) -> CacheView<
    Identity<S>,
> {
    let loaded = faulted::<S>(v, b, node, offset);
    let ready = if copies(v, b, node, offset, flags) {
        copied::<S>(loaded, b, node, offset, identities)
    } else {
        loaded
    };
    activated(ready, b, (node, offset), page_at::<S>(ready, b, node, offset)).swept()
}

/// Why a page is not even looked up.
pub open spec fn map_refusal<I>(v: CacheView<I>, b: u64, node: NodeId, offset: u64, flags: MapFlags) -> Option<CacheError> {
    if offset % 4096 != 0 {
        Some(CacheError::InvalidMapping("mapping offset must be page aligned"))
    } else if !flags.readable && !flags.writable {
        Some(CacheError::InvalidMapping("mapping must be readable or writable"))
    } else if !v.branches.contains_key(b) {
        Some(CacheError::BranchNotFound(b))
    } else if !v.branches[b].open.contains_key(node) || v.branches[b].open[node] == 0 {
        Some(CacheError::NodeNotOpen(node))
    } else {
        None
    }
}

/// Whether `w` is the cache once branch `b` has mapped a page, as `mapping`.
pub open spec fn map_succeeds<S: ForkableNodeStore>(
    v: CacheView<Identity<S>>,
    w: CacheView<Identity<S>>,
    b: u64,
    node: NodeId,
    offset: u64,
    flags: MapFlags,
    mapping: MappingView,
) -> bool {
    let copying = copies(v, b, node, offset, flags);
    let loaded = faulted::<S>(v, b, node, offset);
    let busy = active_count(v, b, page_at::<S>(loaded, b, node, offset)) > 0;
    exists|identities: int|
        {
            &&& map_refusal(v, b, node, offset, flags) is None
            &&& identity_at::<S>(v, b, node, offset / 4096) is Some
            &&& copying ==> !busy && renamed::<S>(v.branches[b].identities, identities, node, offset / 4096)
            &&& w == #[trigger] mapped::<S>(v, b, node, offset, flags, identities)
            &&& mapping == (MappingView {
                cache_id: v.id,
                branch: b,
                key: (node, offset),
                flags,
                page: page_at::<S>(w, b, node, offset),
            })
        }
}

/// Whether the error is one with which the store of a branch answers when a page is to be brought in.
pub open spec fn load_fails<S: ForkableNodeStore>(branch: BranchView, node: NodeId, offset: u64, error: IoError) -> bool {
    ||| identity_fails::<S>(branch.nodes, branch.identities, node, offset, error)
    ||| read_fails::<S>(branch.nodes, branch.identities, node, offset, 4096, error)
}

/// Whether `w` is the cache once branch `b` has failed to map a page with error `e`.
pub open spec fn map_fails<S: ForkableNodeStore>(
    v: CacheView<Identity<S>>,
    w: CacheView<Identity<S>>,
    b: u64,
    node: NodeId,
    offset: u64,
    flags: MapFlags,
    e: CacheError,
) -> bool {
    let copying = copies(v, b, node, offset, flags);
    let loaded = faulted::<S>(v, b, node, offset);
    let busy = active_count(v, b, page_at::<S>(loaded, b, node, offset)) > 0;
    match e {
        CacheError::Io(error) => {
            let branch = v.branches[b];
            &&& map_refusal(v, b, node, offset, flags) is None
            &&& {
                ||| w == v && !cached::<S>(v, b, node, offset) && load_fails::<S>(branch, node, offset, error)
                ||| {
                    &&& w == loaded
                    &&& identity_at::<S>(v, b, node, offset / 4096) is Some
                    &&& copying && !busy
                    &&& prepare_fails::<S>(branch.nodes, branch.identities, node, offset, error)
                }
            }
        },
        CacheError::PageBusy => {
            &&& map_refusal(v, b, node, offset, flags) is None
            &&& identity_at::<S>(v, b, node, offset / 4096) is Some
            &&& copying && busy
            &&& w == loaded
        },
        e => map_refusal(v, b, node, offset, flags) == Some(e) && w == v,
    }
}

/// How often branch `b` has the page mapped.
pub open spec fn active_count<I>(v: CacheView<I>, b: u64, page: u64) -> int {
    if v.branches[b].active.contains_key(page) {
        v.branches[b].active[page] as int
    } else {
        0
    }
}

/// Whether no page of branch `b` is mapped as often as can be counted.
pub open spec fn countable<I>(v: CacheView<I>, b: u64) -> bool {
    v.branches.contains_key(b) ==> forall|page: u64| #[trigger] v.branches[b].active.contains_key(page) ==> v.branches[b].active[page] < usize::MAX
}

/// The one logical file-page cache owned by a filesystem lineage.
///
/// VMs hold only [`CacheBranchId`] capabilities. All branch-visible versions resolve through this
/// cache, so a cold fault of one unchanged page produces one page regardless of which descendant
/// faults it first.
pub struct SharedPageCache<S: ForkableNodeStore> {
    id: u64,
    next_branch: u64,
    first_page: u64,
    next_page: u64,
    branches: OrdMap<u64, CacheBranch<S>>,
    pages: OrdMap<S::PageIdentity, u64>,
    frames: OrdMap<u64, Vec<u8>>,
    known_pages: OrdSet<PageKey>,
}

impl<S: ForkableNodeStore> View for SharedPageCache<S> {
    type V = CacheView<Identity<S>>;

    closed spec fn view(&self) -> CacheView<Identity<S>> {
        CacheView {
            id: self.id,
            next_branch: self.next_branch,
            first_page: self.first_page,
            next_page: self.next_page,
            branches: self.branches@.map_values(|b: CacheBranch<S>| b@),
            pages: self.pages@,
            frames: self.frames@.map_values(|bytes: Vec<u8>| bytes@),
            known: self.known_pages@,
        }
    }
}

/// An empty branch over a store that holds `nodes` and gives out `identities`.
pub open spec fn fresh_branch(nodes: Map<NodeId, Seq<u8>>, identities: int, dirty: Map<PageKey, bool>) -> BranchView {
    BranchView { nodes, identities, open: Map::empty(), active: Map::empty(), exclusive: Set::empty(), dirty }
}

impl<S: ForkableNodeStore> SharedPageCache<S> {
    pub open spec fn wf(self) -> bool {
        self@.wf()
    }

    /// A cache with the given identity, which no other cache should have, and one branch. Its pages
    /// are numbered from `first_page` on, where no other cache should number its pages.
    pub fn new(id: u64, first_page: u64, store: S) -> (r: (Self, CacheBranchId))
        ensures
            r.0.wf(),
            r.1.number() == 1,
            r.0@ == (CacheView {
                id,
                next_branch: 2,
                first_page,
                next_page: first_page,
                branches: Map::empty().insert(1u64, fresh_branch(store.nodes(), store.identities(), Map::empty())),
                pages: Map::<Identity<S>, u64>::empty(),
                frames: Map::empty(),
                known: Set::empty(),
            }),
    {
        let ghost nodes = store.nodes();
        let ghost identities = store.identities();
        let mut branches: OrdMap<u64, CacheBranch<S>> = OrdMap::new();
        let branch = CacheBranch {
            store,
            open_nodes: OrdMap::new(),
            active_pages: OrdMap::new(),
            exclusive_pages: OrdSet::new(),
            dirty_pages: DirtyBranch::new(),
        };
        branches.insert(1, branch);
        let cache = SharedPageCache {
            id,
            next_branch: 2,
            first_page,
            next_page: first_page,
            branches,
            pages: OrdMap::new(),
            frames: OrdMap::new(),
            known_pages: OrdSet::new(),
        };
        assert(cache@.branches =~= Map::empty().insert(1u64, fresh_branch(nodes, identities, Map::empty())));
        assert(cache@.frames =~= Map::<u64, Seq<u8>>::empty());
        (cache, CacheBranchId(1))
    }

    pub fn id(&self) -> (id: u64)
        ensures
            id == self@.id,
    {
        self.id
    }

    /// The numbers of all branches, in order.
    fn branch_numbers(&self) -> (numbers: Vec<u64>)
        ensures
            ascending::<u64>(numbers@),
            forall|b: u64| #[trigger] self@.branches.contains_key(b) <==> numbers@.contains(b),
    {
        let n: usize = self.branches.len();
        let mut numbers: Vec<u64> = Vec::new();
        let mut i: usize = 0;
        while i < n
            invariant
                i <= n,
                n == self.branches.keys().len(),
                numbers@ == self.branches.keys().take(i as int),
            decreases n - i,
        {
            numbers.push(*self.branches.key_at(i));
            assert(self.branches.keys().take(i + 1) =~= self.branches.keys().take(i as int).push(self.branches.keys()[i as int]));
            i += 1;
        }
        assert(numbers@ =~= self.branches.keys());
        assert forall|b: u64| #[trigger] self@.branches.contains_key(b) <==> numbers@.contains(b) by {
            assert(self.branches@.contains_key(b) <==> self.branches.keys().contains(b));
        }
        numbers
    }

    /// Whether some branch sees the identity for the page at `offset` of the node.
    fn identity_is_visible(&mut self, node: NodeId, offset: u64, identity: &S::PageIdentity) -> (visible: bool)
        ensures
            final(self)@ == old(self)@,
            visible == sees::<S>(old(self)@, node, offset / 4096, identity@),
    {
        let ghost before = self@;
        let numbers = self.branch_numbers();
        let n: usize = numbers.len();
        let mut i: usize = 0;
        while i < n
            invariant
                i <= n,
                n == numbers@.len(),
                self@ == before,
                before == old(self)@,
                forall|b: u64| #[trigger] before.branches.contains_key(b) <==> numbers@.contains(b),
                forall|j: int| 0 <= j < i ==> identity_of::<S>(before.branches[#[trigger] numbers@[j]].identities, node, offset / 4096) != Some(identity@),
            decreases n - i,
        {
            let number: u64 = numbers[i];
            assert(numbers@.contains(number));
            assert(before.branches.contains_key(number));
            if let Some(mut branch) = self.branches.remove(&number) {
                let found = branch.store.page_identity(node, offset);
                self.branches.insert(number, branch);
                assert(self@.branches =~= before.branches);
                if let Ok(other) = found {
                    match other.position(identity) {
                        crate::ordered::Position::Same => {
                            assert(identity_at::<S>(before, number, node, offset / 4096) == Some(identity@));
                            return true;
                        },
                        crate::ordered::Position::Before => {
                            proof {
                                <S::PageIdentity as Key>::less_irreflexive(identity@);
                            }
                        },
                        crate::ordered::Position::After => {
                            proof {
                                <S::PageIdentity as Key>::less_irreflexive(identity@);
                            }
                        },
                    }
                }
            }
            i += 1;
        }
        assert forall|b: u64| #[trigger] before.branches.contains_key(b) implies identity_at::<S>(before, b, node, offset / 4096) != Some(identity@) by {
            let j = choose|j: int| 0 <= j < numbers@.len() && numbers@[j] == b;
            assert(numbers@[j] == b);
        }
        false
    }

    /// Takes a branch out.
    fn take_branch(&mut self, number: u64) -> (r: Option<CacheBranch<S>>)
        ensures
            final(self).known_pages == old(self).known_pages,
            forall|other: u64| other != number ==> #[trigger] final(self).store_of(other) == old(self).store_of(other),
            match r {
                Some(branch) => {
                    &&& old(self)@.branches.contains_key(number)
                    &&& branch@ == old(self)@.branches[number]
                    &&& branch.store == old(self).store_of(number)
                    &&& final(self)@ == (CacheView { branches: old(self)@.branches.remove(number), ..old(self)@ })
                },
                None => {
                    &&& !old(self)@.branches.contains_key(number)
                    &&& final(self)@ == old(self)@
                    &&& final(self).store_of(number) == old(self).store_of(number)
                },
            },
    {
        let ghost before = self@;
        let r = self.branches.remove(&number);
        assert(self@.branches =~= before.branches.remove(number));
        if r.is_none() {
            assert(self@.branches =~= before.branches);
            assert(self.branches@ =~= old(self).branches@);
        }
        r
    }

    /// Puts a branch in.
    fn put_branch(&mut self, number: u64, branch: CacheBranch<S>)
        ensures
            final(self).known_pages == old(self).known_pages,
            final(self)@ == (CacheView { branches: old(self)@.branches.insert(number, branch@), ..old(self)@ }),
            final(self).store_of(number) == branch.store,
            forall|other: u64| other != number ==> #[trigger] final(self).store_of(other) == old(self).store_of(other),
    {
        let ghost before = self@;
        self.branches.insert(number, branch);
        assert(self@.branches =~= before.branches.insert(number, branch@));
    }

    /// Gives a page new contents.
    fn put_frame(&mut self, page: u64, bytes: Vec<u8>)
        ensures
            final(self)@ == (CacheView { frames: old(self)@.frames.insert(page, bytes@), ..old(self)@ }),
    {
        let ghost before = self@;
        self.frames.insert(page, bytes);
        assert(self@.frames =~= before.frames.insert(page, bytes@));
    }

    /// Whether an identity or a mapping refers to the page.
    fn is_referenced(&self, page: u64) -> (b: bool)
        ensures
            b == self@.referenced(page),
    {
        let n: usize = self.pages.len();
        let mut i: usize = 0;
        while i < n
            invariant
                i <= n,
                n == self.pages.keys().len(),
                self.pages.listed(),
                forall|j: int| 0 <= j < i ==> self.pages@[#[trigger] self.pages.keys()[j]] != page,
            decreases n - i,
        {
            if *self.pages.value_at(i) == page {
                assert(self@.pages.contains_key(self.pages.keys()[i as int]));
                return true;
            }
            i += 1;
        }
        let m: usize = self.branches.len();
        i = 0;
        while i < m
            invariant
                i <= m,
                m == self.branches.keys().len(),
                self.branches.listed(),
                forall|j: int| 0 <= j < i ==> !self@.branches[#[trigger] self.branches.keys()[j]].active.contains_key(page),
            decreases m - i,
        {
            if self.branches.value_at(i).active_pages.contains_key(&page) {
                assert(self@.branches.contains_key(self.branches.keys()[i as int]));
                return true;
            }
            i += 1;
        }
        assert forall|k: Identity<S>| self@.pages.contains_key(k) implies #[trigger] self@.pages[k] != page by {
            assert(self.pages.keys().contains(k));
        }
        assert forall|b: u64| #[trigger] self@.branches.contains_key(b) implies !self@.branches[b].active.contains_key(page) by {
            assert(self.branches@.contains_key(b));
            assert(self.branches.keys().contains(b));
        }
        false
    }

    /// Lets go of the pages to which nothing refers.
    fn sweep(&mut self)
        ensures
            final(self)@ == old(self)@.swept(),
    {
        let ghost before = self@;
        let n: usize = self.frames.len();
        let mut ids: Vec<u64> = Vec::new();
        let mut i: usize = 0;
        while i < n
            invariant
                i <= n,
                *self == *old(self),
                n == self.frames.keys().len(),
                ids@ == self.frames.keys().take(i as int),
            decreases n - i,
        {
            ids.push(*self.frames.key_at(i));
            assert(self.frames.keys().take(i + 1) =~= self.frames.keys().take(i as int).push(self.frames.keys()[i as int]));
            i += 1;
        }
        assert(ids@ =~= self.frames.keys());
        assert forall|p: u64| #[trigger] before.frames.contains_key(p) implies among(ids@, n as int, p) by {
            assert(self.frames@.contains_key(p));
            assert(self.frames.keys().contains(p));
        }
        i = 0;
        while i < n
            invariant
                i <= n,
                n == ids@.len(),
                before == old(self)@,
                self@ == (CacheView { frames: self@.frames, ..before }),
                forall|p: u64| #[trigger] self@.frames.contains_key(p) <==> before.frames.contains_key(p) && (!among(ids@, i as int, p) || before.referenced(p)),
                forall|p: u64| #[trigger] self@.frames.contains_key(p) ==> self@.frames[p] == before.frames[p],
                forall|p: u64| #[trigger] before.frames.contains_key(p) ==> among(ids@, n as int, p),
            decreases n - i,
        {
            let ghost earlier = self@;
            proof {
                lemma_among(ids@, i as int);
            }
            let id: u64 = ids[i];
            assert(earlier.referenced(id) == before.referenced(id)) by {
                assert(earlier.pages =~= before.pages);
                assert(earlier.branches =~= before.branches);
            }
            if !self.is_referenced(id) {
                self.frames.remove(&id);
                assert(self@.frames =~= earlier.frames.remove(id));
            }
            i += 1;
        }
        assert(self@.frames =~= before.swept().frames);
    }

    /// The identity that the branch sees for a page, and the page that stands for it, read from the
    /// store unless it is in the cache already.
    fn load_page(&mut self, number: u64, node: NodeId, offset: u64) -> (r: Result<(S::PageIdentity, u64), CacheError>)
        requires
            old(self)@.sound(),
            old(self)@.branches.contains_key(number),
            old(self)@.next_page < u64::MAX,
        ensures
            match r {
                Ok((identity, page)) => {
                    &&& identity_at::<S>(old(self)@, number, node, offset / 4096) == Some(identity@)
                    &&& final(self)@ == faulted::<S>(old(self)@, number, node, offset)
                    &&& page == page_at::<S>(final(self)@, number, node, offset)
                },
                Err(e) => {
                    &&& e matches CacheError::Io(error) && load_fails::<S>(old(self)@.branches[number], node, offset, error)
                    &&& final(self)@ == old(self)@
                    &&& !cached::<S>(old(self)@, number, node, offset)
                },
            },
    {
        let ghost before = self@;
        let mut branch = match self.take_branch(number) {
            Some(branch) => branch,
            None => {
                return Err(CacheError::BranchNotFound(number));
            },
        };
        let identity = match branch.store.page_identity(node, offset) {
            Ok(identity) => identity,
            Err(error) => {
                self.put_branch(number, branch);
                assert(self@.branches =~= before.branches);
                return Err(CacheError::Io(error));
            },
        };
        if let Some(page) = self.pages.get(&identity) {
            let page: u64 = *page;
            self.put_branch(number, branch);
            assert(self@.branches =~= before.branches);
            return Ok((identity, page));
        }
        let mut bytes = zero_bytes(4096);
        let count: usize = match branch.store.read_node(node, offset, bytes.as_mut_slice()) {
            Ok(count) => count,
            Err(error) => {
                self.put_branch(number, branch);
                assert(self@.branches =~= before.branches);
                return Err(CacheError::Io(error));
            },
        };
        let page_bytes = front_of_page(&bytes, count);
        self.put_branch(number, branch);
        assert(self@.branches =~= before.branches);
        assert(page_bytes@ =~= page_of(before.branches[number].nodes[node], offset as int)) by {
            let contents = before.branches[number].nodes[node];
            assert forall|i: int| 0 <= i < count implies bytes@[i] == contents[offset + i] by {
                assert(bytes@.take(count as int)[i] == contents.subrange(offset as int, offset + count)[i]);
            }
        }
        let page: u64 = self.next_page;
        self.next_page = page + 1;
        let kept = identity.duplicate();
        self.pages.insert(kept, page);
        self.put_frame(page, page_bytes);
        assert(self@ =~= faulted::<S>(before, number, node, offset));
        Ok((identity, page))
    }

    /// Gives the branch a page of its own, with the contents of the page that it sees.
    fn copy_page(&mut self, number: u64, node: NodeId, offset: u64, identity: &S::PageIdentity, page: u64) -> (r: Result<u64, CacheError>)
        requires
            old(self)@.sound(),
            old(self)@.branches.contains_key(number),
            old(self)@.next_page < u64::MAX,
            cached::<S>(old(self)@, number, node, offset),
            identity_at::<S>(old(self)@, number, node, offset / 4096) == Some(identity@),
            page == page_at::<S>(old(self)@, number, node, offset),
        ensures
            match r {
                Ok(copy) => {
                    exists|identities: int|
                        {
                            &&& renamed::<S>(old(self)@.branches[number].identities, identities, node, offset / 4096)
                            &&& final(self)@ == #[trigger] copied::<S>(old(self)@, number, node, offset, identities)
                            &&& copy == page_at::<S>(final(self)@, number, node, offset)
                        }
                },
                Err(e) => {
                    let branch = old(self)@.branches[number];
                    &&& e matches CacheError::Io(error) && prepare_fails::<S>(branch.nodes, branch.identities, node, offset, error)
                    &&& final(self)@ == old(self)@
                },
            },
    {
        let ghost before = self@;
        assert(self.frames@.contains_key(page)) by {
            assert(before.pages.contains_key(identity@));
            assert(before.frames.contains_key(page));
        }
        let bytes = match self.frames.get(&page) {
            Some(bytes) => copy_slice(bytes.as_slice()),
            None => Vec::new(),
        };
        assert(bytes@ == before.frames[page]);
        let mut branch = match self.take_branch(number) {
            Some(branch) => branch,
            None => {
                return Err(CacheError::BranchNotFound(number));
            },
        };
        let now = match branch.store.prepare_page_write(node, offset) {
            Ok(now) => now,
            Err(error) => {
                self.put_branch(number, branch);
                assert(self@.branches =~= before.branches);
                return Err(CacheError::Io(error));
            },
        };
        branch.exclusive_pages.insert((node, offset));
        let ghost identities = branch.store.identities();
        self.put_branch(number, branch);
        let ghost owned = self@;
        assert(owned.branches =~= before.branches.insert(
            number,
            BranchView {
                identities,
                exclusive: before.branches[number].exclusive.insert((node, offset)),
                ..before.branches[number]
            },
        ));
        let copy: u64 = self.next_page;
        self.next_page = copy + 1;
        let visible = self.identity_is_visible(node, offset, identity);
        assert(visible == sees::<S>(owned, node, offset / 4096, identity@)) by {
            assert(self@.branches == owned.branches);
            lemma_sees_depends_on_branches::<S>(self@, owned, node, offset / 4096, identity@);
        }
        self.pages.insert(now, copy);
        if !visible {
            self.pages.remove(identity);
        }
        self.put_frame(copy, bytes);
        assert(self@ =~= copied::<S>(before, number, node, offset, identities));
        assert(identity_at::<S>(self@, number, node, offset / 4096) == Some(now@));
        assert(now@ == identity@ ==> visible) by {
            assert(owned.branches.contains_key(number));
        }
        Ok(copy)
    }

    /// Counts one more mapping of the page.
    fn activate(&mut self, number: u64, key: PageKey, page: u64)
        requires
            old(self)@.branches.contains_key(number),
            active_count(old(self)@, number, page) < usize::MAX,
        ensures
            final(self)@ == activated(old(self)@, number, key, page),
    {
        let ghost before = self@;
        self.known_pages.insert(key);
        if let Some(mut branch) = self.take_branch(number) {
            let ghost was = branch@;
            let count: usize = match branch.active_pages.get(&page) {
                Some(count) => *count,
                None => 0,
            };
            branch.active_pages.insert(page, count + 1);
            self.put_branch(number, branch);
            assert(self@.branches =~= activated(before, number, key, page).branches);
        }
        assert(self@ =~= activated(before, number, key, page));
    }
}

/// The first `count` bytes, and zeros up to the size of a page.
fn front_of_page(bytes: &Vec<u8>, count: usize) -> (page: Vec<u8>)
    requires
        count <= bytes@.len() == 4096,
    ensures
        page@ == Seq::new(
            4096,
            |i: int|
                if i < count {
                    bytes@[i]
                } else {
                    0u8
                },
        ),
{
    let mut page = zero_bytes(4096);
    lay_over(&mut page, 0, bytes.as_slice(), 0, count);
    assert(page@ =~= Seq::new(
        4096,
        |i: int|
            if i < count {
                bytes@[i]
            } else {
                0u8
            },
    ));
    page
}

proof fn lemma_sees_depends_on_branches<S: ForkableNodeStore>(v: CacheView<Identity<S>>, w: CacheView<Identity<S>>, node: NodeId, page: u64, i: Identity<S>)
    requires
        v.branches == w.branches,
    ensures
        sees::<S>(v, node, page, i) == sees::<S>(w, node, page, i),
{
    if sees::<S>(v, node, page, i) {
        let b = choose|b: u64| #[trigger] v.branches.contains_key(b) && identity_at::<S>(v, b, node, page) == Some(i);
        assert(w.branches.contains_key(b));
    }
    if sees::<S>(w, node, page, i) {
        let b = choose|b: u64| #[trigger] w.branches.contains_key(b) && identity_at::<S>(w, b, node, page) == Some(i);
        assert(v.branches.contains_key(b));
    }
}

/// Bringing a page in keeps the cache sound.
pub proof fn lemma_faulted<S: ForkableNodeStore>(v: CacheView<Identity<S>>, b: u64, node: NodeId, offset: u64)
    requires
        v.sound(),
        v.branches.contains_key(b),
        v.next_page < u64::MAX,
        identity_at::<S>(v, b, node, offset / 4096) is Some,
    ensures
        faulted::<S>(v, b, node, offset).sound(),
        v.tidy() ==> faulted::<S>(v, b, node, offset).tidy(),
        cached::<S>(faulted::<S>(v, b, node, offset), b, node, offset),
{
    let w = faulted::<S>(v, b, node, offset);
    let i = identity_at::<S>(v, b, node, offset / 4096)->Some_0;
    assert forall|j: Identity<S>, k: Identity<S>| w.pages.contains_key(j) && w.pages.contains_key(k) && #[trigger] w.pages[j] == #[trigger] w.pages[k] implies j == k by {
        if !cached::<S>(v, b, node, offset) {
            if j != i {
                assert(v.pages.contains_key(j));
            }
            if k != i {
                assert(v.pages.contains_key(k));
            }
        }
    }
    if v.tidy() {
        assert forall|page: u64| #[trigger] w.frames.contains_key(page) implies w.referenced(page) by {
            if v.frames.contains_key(page) {
                lemma_still_referenced(v, w, page);
            } else {
                assert(w.pages.contains_key(i) && w.pages[i] == page);
            }
        }
    }
}

/// What refers to a page keeps referring to it where identities and mappings only grow.
pub proof fn lemma_still_referenced<I>(v: CacheView<I>, w: CacheView<I>, page: u64)
    requires
        v.referenced(page),
        forall|i: I| #[trigger] v.pages.contains_key(i) ==> w.pages.contains_key(i) && w.pages[i] == v.pages[i],
        forall|b: u64| #[trigger] v.branches.contains_key(b) ==> w.branches.contains_key(b),
        forall|b: u64, p: u64| #![trigger v.branches[b].active.contains_key(p)] v.branches.contains_key(b) && v.branches[b].active.contains_key(p) ==> w.branches[b].active.contains_key(p),
    ensures
        w.referenced(page),
{
    if exists|i: I| v.pages.contains_key(i) && #[trigger] v.pages[i] == page {
        let i = choose|i: I| v.pages.contains_key(i) && #[trigger] v.pages[i] == page;
        assert(w.pages.contains_key(i) && w.pages[i] == page);
    } else {
        let b = choose|b: u64| #[trigger] v.branches.contains_key(b) && v.branches[b].active.contains_key(page);
        assert(w.branches.contains_key(b) && w.branches[b].active.contains_key(page));
    }
}

/// Copying a page keeps the cache sound.
pub proof fn lemma_copied<S: ForkableNodeStore>(v: CacheView<Identity<S>>, b: u64, node: NodeId, offset: u64, identities: int)
    requires
        v.sound(),
        v.branches.contains_key(b),
        v.next_page < u64::MAX,
        cached::<S>(v, b, node, offset),
        renamed::<S>(v.branches[b].identities, identities, node, offset / 4096),
    ensures
        copied::<S>(v, b, node, offset, identities).sound(),
        cached::<S>(copied::<S>(v, b, node, offset, identities), b, node, offset),
        page_at::<S>(copied::<S>(v, b, node, offset, identities), b, node, offset) == v.next_page,
{
    let w = copied::<S>(v, b, node, offset, identities);
    let was = identity_at::<S>(v, b, node, offset / 4096)->Some_0;
    let branch = v.branches[b];
    let owned = CacheView {
        branches: v.branches.insert(b, BranchView { identities, exclusive: branch.exclusive.insert((node, offset)), ..branch }),
        ..v
    };
    let now = identity_at::<S>(owned, b, node, offset / 4096)->Some_0;
    assert(owned.branches.contains_key(b));
    assert(now == was ==> sees::<S>(owned, node, offset / 4096, was));
    assert(v.pages.contains_key(was));
    assert(w.pages.contains_key(now) && w.pages[now] == v.next_page);
    assert forall|j: Identity<S>, k: Identity<S>| w.pages.contains_key(j) && w.pages.contains_key(k) && #[trigger] w.pages[j] == #[trigger] w.pages[k] implies j == k by {
        if j != now {
            assert(v.pages.contains_key(j));
        }
        if k != now {
            assert(v.pages.contains_key(k));
        }
    }
    assert forall|i: Identity<S>| #[trigger] w.pages.contains_key(i) implies w.frames.contains_key(w.pages[i]) by {
        if i != now {
            assert(v.pages.contains_key(i));
        }
    }
    assert forall|x: u64, p: u64| w.branches.contains_key(x) && #[trigger] w.branches[x].active.contains_key(p) implies w.frames.contains_key(p)
        && w.branches[x].active[p] > 0 by {
        assert(v.branches.contains_key(x));
        assert(v.branches[x].active.contains_key(p));
    }
    assert forall|x: u64, k: PageKey| w.branches.contains_key(x) && #[trigger] w.branches[x].dirty.contains_key(k) implies k.1 % 4096 == 0 by {
        assert(v.branches.contains_key(x));
        assert(v.branches[x].dirty.contains_key(k));
    }
}

/// Counting a mapping, and letting go of what is not needed, keep the cache well formed.
pub proof fn lemma_activated<I>(v: CacheView<I>, b: u64, key: PageKey, page: u64)
    requires
        v.sound(),
        v.branches.contains_key(b),
        v.frames.contains_key(page),
        key.1 % 4096 == 0,
        active_count(v, b, page) < usize::MAX,
    ensures
        activated(v, b, key, page).swept().wf(),
        activated(v, b, key, page).swept().frames.contains_key(page),
{
    let w = activated(v, b, key, page);
    assert forall|x: u64, p: u64| w.branches.contains_key(x) && #[trigger] w.branches[x].active.contains_key(p) implies w.frames.contains_key(p)
        && w.branches[x].active[p] > 0 by {
        assert(v.branches.contains_key(x));
        if !(x == b && p == page) {
            assert(v.branches[x].active.contains_key(p));
        }
    }
    assert forall|x: u64, k: PageKey| w.branches.contains_key(x) && #[trigger] w.branches[x].dirty.contains_key(k) implies k.1 % 4096 == 0 by {
        assert(v.branches.contains_key(x));
        assert(v.branches[x].dirty.contains_key(k));
    }
    assert(w.sound());
    assert(w.branches.contains_key(b) && w.branches[b].active.contains_key(page));
    assert(w.referenced(page));
    lemma_swept(w);
}

/// Letting go of the pages to which nothing refers makes a sound cache well formed.
pub proof fn lemma_swept<I>(v: CacheView<I>)
    requires
        v.sound(),
    ensures
        v.swept().wf(),
{
    let w = v.swept();
    assert forall|i: I| #[trigger] w.pages.contains_key(i) implies w.frames.contains_key(w.pages[i]) by {
        assert(v.pages.contains_key(i) && v.pages[i] == w.pages[i]);
        assert(v.referenced(w.pages[i]));
    }
    assert forall|b: u64, page: u64| #![trigger w.branches[b].active.contains_key(page)]
        w.branches.contains_key(b) && w.branches[b].active.contains_key(page) implies w.frames.contains_key(page) && w.branches[b].active[page] > 0 by {
        assert(v.branches.contains_key(b) && v.branches[b].active.contains_key(page));
        assert(v.referenced(page));
    }
    assert forall|page: u64| #[trigger] w.frames.contains_key(page) implies w.referenced(page) by {
        assert(v.frames.contains_key(page) && v.referenced(page));
        lemma_still_referenced(v, w, page);
    }
}

/// A well-formed cache holds nothing to let go of.
pub proof fn lemma_swept_is_tidy<I>(v: CacheView<I>)
    requires
        v.tidy(),
    ensures
        v.swept() == v,
{
    assert(v.swept().frames =~= v.frames);
}

impl<S: ForkableNodeStore> SharedPageCache<S> {
    /// Maps the page at `offset` of an open node.
    ///
    /// A writable mapping first gives the branch a page of its own, unless the branch already has
    /// one.
    pub fn map_page(&mut self, branch_id: CacheBranchId, node: NodeId, offset: u64, flags: MapFlags) -> (r: Result<DaxPageMapping, CacheError>)
        requires
            old(self).wf(),
            old(self)@.next_page < u64::MAX - 1,
            countable(old(self)@, branch_id.number()),
        ensures
            final(self).wf(),
            match r {
                Ok(mapping) => map_succeeds::<S>(old(self)@, final(self)@, branch_id.number(), node, offset, flags, mapping@),
                Err(e) => map_fails::<S>(old(self)@, final(self)@, branch_id.number(), node, offset, flags, e),
            },
    {
        if offset % 4096 != 0 {
            return Err(CacheError::InvalidMapping("mapping offset must be page aligned"));
        }
        if !flags.intersects(MapFlags::read_write()) {
            return Err(CacheError::InvalidMapping("mapping must be readable or writable"));
        }
        let number: u64 = branch_id.0;
        let ghost before = self@;
        let copying: bool;
        match self.branches.get(&number) {
            None => {
                return Err(CacheError::BranchNotFound(number));
            },
            Some(branch) => {
                assert(branch@ == before.branches[number]);
                let count: usize = match branch.open_nodes.get(&node) {
                    Some(count) => *count,
                    None => 0,
                };
                if count == 0 {
                    return Err(CacheError::NodeNotOpen(node));
                }
                copying = flags.contains(MapFlags::write()) && !branch.exclusive_pages.contains(&(node, offset));
            },
        }
        let (identity, loaded_page) = self.load_page(number, node, offset)?;
        let mut page: u64 = loaded_page;
        let ghost loaded = self@;
        let ghost mut identities: int = 0;
        proof {
            lemma_faulted::<S>(before, number, node, offset);
            assert(loaded.branches == before.branches);
        }
        if copying {
            let active: usize = match self.branches.get(&number) {
                Some(branch) => {
                    assert(branch@ == before.branches[number]);
                    match branch.active_pages.get(&page) {
                        Some(count) => *count,
                        None => 0,
                    }
                },
                None => 0,
            };
            if active > 0 {
                return Err(CacheError::PageBusy);
            }
            page = self.copy_page(number, node, offset, &identity, page)?;
            proof {
                identities = choose|identities: int|
                    {
                        &&& renamed::<S>(loaded.branches[number].identities, identities, node, offset / 4096)
                        &&& self@ == #[trigger] copied::<S>(loaded, number, node, offset, identities)
                        &&& page == page_at::<S>(self@, number, node, offset)
                    };
                lemma_copied::<S>(loaded, number, node, offset, identities);
            }
        }
        let ghost ready = self@;
        assert(ready.frames.contains_key(page)) by {
            assert(cached::<S>(ready, number, node, offset));
            assert(ready.pages.contains_key(identity_at::<S>(ready, number, node, offset / 4096)->Some_0));
        }
        assert(ready.branches[number].active == before.branches[number].active);
        proof {
            lemma_activated(ready, number, (node, offset), page);
        }
        self.activate(number, (node, offset), page);
        self.sweep();
        assert(self@ == mapped::<S>(before, number, node, offset, flags, identities));
        assert(page == page_at::<S>(self@, number, node, offset));
        Ok(DaxPageMapping { cache_id: self.id, branch: branch_id, key: (node, offset), flags, page })
    }
}

/// The cache once a mapping of branch `b` is given up.
pub open spec fn unmapped<I>(v: CacheView<I>, b: u64, mapping: MappingView) -> CacheView<I> {
    let branch = v.branches[b];
    let active = if branch.active[mapping.page] == 1 {
        branch.active.remove(mapping.page)
    } else {
        branch.active.insert(mapping.page, (branch.active[mapping.page] - 1) as usize)
    };
    let dirty = if mapping.flags.writable {
        branch.dirty.insert(mapping.key, true)
    } else {
        branch.dirty
    };
    CacheView { branches: v.branches.insert(b, BranchView { active, dirty, ..branch }), ..v }.swept()
}

/// Why a mapping cannot be given up.
pub open spec fn unmap_refusal<I>(v: CacheView<I>, b: u64, mapping: MappingView) -> Option<CacheError> {
    if mapping.cache_id != v.id || mapping.branch != b {
        Some(CacheError::StaleMapping)
    } else if !v.branches.contains_key(b) {
        Some(CacheError::BranchNotFound(b))
    } else if !v.branches[b].active.contains_key(mapping.page) {
        Some(CacheError::StaleMapping)
    } else {
        None
    }
}

/// Whether a mapping is one that the cache handed out and has not been given up.
pub open spec fn live<I>(v: CacheView<I>, mapping: MappingView) -> bool {
    &&& mapping.cache_id == v.id
    &&& v.branches.contains_key(mapping.branch)
    &&& v.branches[mapping.branch].active.contains_key(mapping.page)
}

impl<S: ForkableNodeStore> SharedPageCache<S> {
    /// The store of a branch.
    pub closed spec fn store_of(self, b: u64) -> S {
        self.branches@[b].store
    }

    /// Runs an operation on the store of a branch.
    pub fn with_store_mut<T, F: FnOnce(&mut S) -> Result<T, IoError>>(&mut self, branch: CacheBranchId, operation: F) -> (r: Result<T, CacheError>)
        requires
            old(self).wf(),
            forall|store: &mut S| #[trigger] call_requires(operation, (store,)),
        ensures
            final(self).wf(),
            if old(self)@.branches.contains_key(branch.number()) {
                let b = branch.number();
                let was = old(self)@.branches[b];
                let now = final(self).store_of(b);
                &&& exists|store: &mut S, done: Result<T, IoError>|
                    {
                        &&& #[trigger] call_ensures(operation, (store,), done)
                        &&& *store == old(self).store_of(b)
                        &&& *final(store) == now
                        &&& r == match done {
                            Ok(value) => Ok::<T, CacheError>(value),
                            Err(error) => Err(CacheError::Io(error)),
                        }
                    }
                &&& final(self)@ == (CacheView {
                    branches: old(self)@.branches.insert(b, BranchView { nodes: now.nodes(), identities: now.identities(), ..was }),
                    ..old(self)@
                })
            } else {
                r == Err::<T, CacheError>(CacheError::BranchNotFound(branch.number())) && final(self)@ == old(self)@
            },
    {
        let number: u64 = branch.0;
        let ghost before = self@;
        let mut taken = match self.branches.remove(&number) {
            Some(taken) => taken,
            None => {
                assert(self@.branches =~= before.branches);
                return Err(CacheError::BranchNotFound(number));
            },
        };
        let done = operation(&mut taken.store);
        self.branches.insert(number, taken);
        assert(self@.branches =~= before.branches.insert(
            number,
            BranchView { nodes: taken.store.nodes(), identities: taken.store.identities(), ..before.branches[number] },
        ));
        proof {
            assert(self@.sound());
            assert forall|p: u64| #[trigger] self@.frames.contains_key(p) implies self@.referenced(p) by {
                lemma_still_referenced(before, self@, p);
            }
        }
        match done {
            Ok(value) => Ok(value),
            Err(error) => Err(CacheError::Io(error)),
        }
    }

    /// Gives up a mapping.
    pub fn unmap(&mut self, branch_id: CacheBranchId, mapping: DaxPageMapping) -> (r: Result<(), CacheError>)
        requires
            old(self).wf(),
            mapping@.key.1 % 4096 == 0,
        ensures
            final(self).wf(),
            match unmap_refusal(old(self)@, branch_id.number(), mapping@) {
                Some(e) => r == Err::<(), CacheError>(e) && final(self)@ == old(self)@,
                None => r is Ok && final(self)@ == unmapped(old(self)@, branch_id.number(), mapping@),
            },
    {
        if mapping.cache_id != self.id || mapping.branch.0 != branch_id.0 {
            return Err(CacheError::StaleMapping);
        }
        let number: u64 = branch_id.0;
        let ghost before = self@;
        let mut branch = match self.take_branch(number) {
            Some(branch) => branch,
            None => {
                return Err(CacheError::BranchNotFound(number));
            },
        };
        let count: usize = match branch.active_pages.get(&mapping.page) {
            Some(count) => *count,
            None => {
                self.put_branch(number, branch);
                assert(self@.branches =~= before.branches);
                return Err(CacheError::StaleMapping);
            },
        };
        assert(before.branches[number].active.contains_key(mapping.page));
        if count == 1 {
            branch.active_pages.remove(&mapping.page);
        } else {
            branch.active_pages.insert(mapping.page, count - 1);
        }
        if mapping.flags.contains(MapFlags::write()) {
            branch.dirty_pages.mark_dirty(mapping.key);
        }
        self.put_branch(number, branch);
        assert(self@.branches =~= before.branches.insert(number, unmapped(before, number, mapping@).branches[number]));
        assert(self@.sound());
        proof {
            lemma_swept(self@);
        }
        self.sweep();
        Ok(())
    }

    /// Reads a mapped page's bytes from `offset` on; nothing where the mapping is no longer one of
    /// this cache.
    pub fn read_mapped(&self, mapping: &DaxPageMapping, offset: usize, len: usize) -> (r: Option<Vec<u8>>)
        requires
            self.wf(),
        ensures
            r is Some <==> live(self@, mapping@) && offset + len <= 4096,
            r matches Some(bytes) ==> bytes@ == bytes_at(self@.frames[mapping@.page], offset as int, len as nat),
    {
        if !self.is_live(mapping) || offset > 4096 || len > 4096 - offset {
            return None;
        }
        match self.frames.get(&mapping.page) {
            Some(bytes) => {
                assert(bytes@ == self@.frames[mapping.page]);
                assert(self@.frames.contains_key(mapping.page));
                Some(copy_slice(vstd::slice::slice_subrange(bytes.as_slice(), offset, offset + len)))
            },
            None => {
                assert(self@.branches[mapping.branch.0].active.contains_key(mapping.page));
                assert(self@.frames.contains_key(mapping.page));
                None
            },
        }
    }

    /// Writes through a writable mapping; refused where the mapping is no longer one of this cache.
    pub fn write_mapped(&mut self, mapping: &DaxPageMapping, offset: usize, bytes: &[u8]) -> (done: bool)
        requires
            old(self).wf(),
        ensures
            final(self).wf(),
            done == (live(old(self)@, mapping@) && mapping@.flags.writable && offset + bytes@.len() <= 4096),
            done ==> final(self)@ == page_written(old(self)@, mapping@.page, offset as int, bytes@),
            !done ==> final(self)@ == old(self)@,
    {
        let len: usize = bytes.len();
        if !self.is_live(mapping) || !mapping.flags.contains(MapFlags::write()) || offset > 4096 || len > 4096 - offset {
            return false;
        }
        let ghost before = self@;
        let page: u64 = mapping.page;
        assert(before.branches[mapping.branch.0].active.contains_key(page));
        assert(before.frames.contains_key(page));
        assert(self.frames@.contains_key(page));
        if let Some(mut held) = self.frames.remove(&page) {
            assert(held@ == before.frames[page]);
            lay_over(&mut held, offset, bytes, 0, len);
            assert(bytes@.subrange(0, len as int) =~= bytes@);
            self.put_frame(page, held);
        }
        assert(self@.frames =~= page_written(before, page, offset as int, bytes@).frames);
        proof {
            assert(self@.sound());
            assert forall|p: u64| #[trigger] self@.frames.contains_key(p) implies self@.referenced(p) by {
                assert(before.frames.contains_key(p));
                lemma_still_referenced(before, self@, p);
            }
        }
        true
    }

    fn is_live(&self, mapping: &DaxPageMapping) -> (b: bool)
        ensures
            b == live(self@, mapping@),
    {
        if mapping.cache_id != self.id {
            return false;
        }
        match self.branches.get(&mapping.branch.0) {
            Some(branch) => {
                assert(branch@ == self@.branches[mapping.branch.0]);
                branch.active_pages.contains_key(&mapping.page)
            },
            None => false,
        }
    }
}

/// The cache once bytes are written to a page.
pub open spec fn page_written<I>(v: CacheView<I>, page: u64, offset: int, bytes: Seq<u8>) -> CacheView<I> {
    CacheView { frames: v.frames.insert(page, laid_over(v.frames[page], offset, bytes)), ..v }
}

/// How often a node is open.
pub open spec fn open_count(open: Map<NodeId, usize>, node: NodeId) -> usize {
    if open.contains_key(node) {
        open[node]
    } else {
        0
    }
}

/// The cache with another value for branch `b`.
pub open spec fn with_branch<I>(v: CacheView<I>, b: u64, branch: BranchView) -> CacheView<I> {
    CacheView { branches: v.branches.insert(b, branch), ..v }
}

/// A cache stays well formed where a branch changes in nothing but its store, what it has open and
/// what belongs to it alone.
proof fn lemma_with_branch<I>(v: CacheView<I>, b: u64, branch: BranchView)
    requires
        v.wf(),
        v.branches.contains_key(b),
        branch.active == v.branches[b].active,
        forall|k: PageKey| #[trigger] branch.dirty.contains_key(k) ==> k.1 % 4096 == 0,
    ensures
        with_branch(v, b, branch).wf(),
{
    let w = with_branch(v, b, branch);
    assert forall|x: u64, p: u64| w.branches.contains_key(x) && #[trigger] w.branches[x].active.contains_key(p) implies w.frames.contains_key(p)
        && w.branches[x].active[p] > 0 by {
        assert(v.branches.contains_key(x));
        assert(v.branches[x].active.contains_key(p));
    }
    assert forall|x: u64, k: PageKey| w.branches.contains_key(x) && #[trigger] w.branches[x].dirty.contains_key(k) implies k.1 % 4096 == 0 by {
        assert(v.branches.contains_key(x));
        assert(x != b ==> v.branches[x].dirty.contains_key(k));
    }
    assert(w.sound());
    assert forall|p: u64| #[trigger] w.frames.contains_key(p) implies w.referenced(p) by {
        lemma_still_referenced(v, w, p);
    }
}

/// The cache once branch `source` is forked.
pub open spec fn cache_forked<I>(v: CacheView<I>, source: u64) -> CacheView<I> {
    let branch = v.branches[source];
    CacheView {
        next_branch: (v.next_branch + 1) as u64,
        branches: v.branches.insert(source, BranchView { exclusive: Set::empty(), ..branch }).insert(
            v.next_branch,
            fresh_branch(branch.nodes, branch.identities, branch.dirty),
        ),
        ..v
    }
}

/// The identities that some branch sees for a page that was ever mapped.
pub open spec fn seen_identities<S: ForkableNodeStore>(v: CacheView<Identity<S>>) -> Set<Identity<S>> {
    Set::new(|i: Identity<S>| exists|k: PageKey| #[trigger] v.known.contains(k) && sees::<S>(v, k.0, k.1 / 4096, i))
}

/// The cache once branch `b` is removed: pages that no other branch sees leave with it.
pub open spec fn branch_removed<S: ForkableNodeStore>(v: CacheView<Identity<S>>, b: u64) -> CacheView<Identity<S>> {
    let rest = CacheView { branches: v.branches.remove(b), ..v };
    CacheView { pages: v.pages.restrict(seen_identities::<S>(rest)), ..rest }.swept()
}

impl<S: ForkableNodeStore> SharedPageCache<S> {
    /// Opens a node in a branch; the branch's store hears of it when the node was not open.
    pub fn open(&mut self, branch: CacheBranchId, node: NodeId) -> (r: Result<(), CacheError>)
        requires
            old(self).wf(),
        ensures
            final(self).wf(),
            ({
                let v = old(self)@;
                let b = branch.number();
                let was = v.branches[b];
                let count = open_count(was.open, node);
                match r {
                    Ok(()) => {
                        &&& v.branches.contains_key(b)
                        &&& count < usize::MAX
                        &&& final(self)@ == with_branch(v, b, BranchView { open: was.open.insert(node, (count + 1) as usize), ..was })
                    },
                    Err(CacheError::Io(error)) => {
                        &&& v.branches.contains_key(b)
                        &&& count == 0
                        &&& opening_fails::<S>(was.nodes, was.identities, node, error)
                        &&& final(self)@ == with_branch(v, b, BranchView { open: was.open.insert(node, 0), ..was })
                    },
                    Err(e) => {
                        &&& final(self)@ == v
                        &&& if v.branches.contains_key(b) {
                            count == usize::MAX && e == CacheError::InvalidMapping("open reference count overflow")
                        } else {
                            e == CacheError::BranchNotFound(b)
                        }
                    },
                }
            }),
            forall|other: u64| other != branch.number() ==> #[trigger] final(self).store_of(other) == old(self).store_of(other),
            ({
                let b = branch.number();
                if old(self)@.branches.contains_key(b) && open_count(old(self)@.branches[b].open, node) == 0 {
                    exists|store: &mut S, done: Result<(), IoError>|
                        {
                            &&& #[trigger] call_ensures(S::on_open_node, (store, node), done)
                            &&& *store == old(self).store_of(b)
                            &&& *final(store) == final(self).store_of(b)
                            &&& r == answered(done)
                        }
                } else {
                    final(self).store_of(b) == old(self).store_of(b)
                }
            }),
    {
        let number: u64 = branch.0;
        let ghost before = self@;
        let mut taken = match self.take_branch(number) {
            Some(taken) => taken,
            None => {
                return Err(CacheError::BranchNotFound(number));
            },
        };
        let count: usize = match taken.open_nodes.get(&node) {
            Some(count) => *count,
            None => 0,
        };
        let mut r: Result<(), CacheError> = Ok(());
        if count == 0 {
            if let Err(error) = taken.store.on_open_node(node) {
                r = Err(CacheError::Io(error));
            }
        }
        if r.is_err() {
            taken.open_nodes.insert(node, 0);
        } else if count == usize::MAX {
            r = Err(CacheError::InvalidMapping("open reference count overflow"));
        } else {
            taken.open_nodes.insert(node, count + 1);
        }
        proof {
            assert(taken@.dirty =~= before.branches[number].dirty);
            lemma_with_branch(before, number, taken@);
        }
        self.put_branch(number, taken);
        assert(self@ =~= with_branch(before, number, taken@));
        proof {
            if count == usize::MAX {
                assert(self@.branches =~= before.branches);
            }
        }
        r
    }

    /// Closes a node in a branch; the branch's store hears of it when the node is no longer open.
    pub fn close(&mut self, branch: CacheBranchId, node: NodeId) -> (r: Result<(), CacheError>)
        requires
            old(self).wf(),
        ensures
            final(self).wf(),
            ({
                let v = old(self)@;
                let b = branch.number();
                let was = v.branches[b];
                let count = open_count(was.open, node);
                let closed = BranchView { open: was.open.insert(node, (count - 1) as usize), ..was };
                match r {
                    Ok(()) => {
                        &&& v.branches.contains_key(b)
                        &&& count > 0
                        &&& {
                            ||| final(self)@ == with_branch(v, b, closed)
                            ||| count == 1 && final(self)@ == with_branch(v, b, BranchView { nodes: was.nodes.remove(node), ..closed })
                        }
                    },
                    Err(CacheError::Io(error)) => {
                        &&& v.branches.contains_key(b)
                        &&& count == 1
                        &&& closing_fails::<S>(was.nodes, was.identities, node, error)
                        &&& {
                            ||| final(self)@ == with_branch(v, b, closed)
                            ||| final(self)@ == with_branch(v, b, BranchView { nodes: was.nodes.remove(node), ..closed })
                        }
                    },
                    Err(e) => {
                        &&& final(self)@ == v
                        &&& if !v.branches.contains_key(b) {
                            e == CacheError::BranchNotFound(b)
                        } else if !was.open.contains_key(node) {
                            e == CacheError::NodeNotOpen(node)
                        } else {
                            count == 0 && e == CacheError::InvalidMapping("node is not open")
                        }
                    },
                }
            }),
            forall|other: u64| other != branch.number() ==> #[trigger] final(self).store_of(other) == old(self).store_of(other),
            ({
                let b = branch.number();
                if old(self)@.branches.contains_key(b) && open_count(old(self)@.branches[b].open, node) == 1 {
                    exists|store: &mut S, done: Result<(), IoError>|
                        {
                            &&& #[trigger] call_ensures(S::on_close_node, (store, node), done)
                            &&& *store == old(self).store_of(b)
                            &&& *final(store) == final(self).store_of(b)
                            &&& r == answered(done)
                        }
                } else {
                    final(self).store_of(b) == old(self).store_of(b)
                }
            }),
    {
        let number: u64 = branch.0;
        let ghost before = self@;
        let mut taken = match self.take_branch(number) {
            Some(taken) => taken,
            None => {
                return Err(CacheError::BranchNotFound(number));
            },
        };
        let mut r: Result<(), CacheError> = Ok(());
        match taken.open_nodes.get(&node) {
            None => {
                r = Err(CacheError::NodeNotOpen(node));
            },
            Some(count) => {
                let count: usize = *count;
                if count == 0 {
                    r = Err(CacheError::InvalidMapping("node is not open"));
                } else {
                    taken.open_nodes.insert(node, count - 1);
                    if count == 1 {
                        if let Err(error) = taken.store.on_close_node(node) {
                            r = Err(CacheError::Io(error));
                        }
                    }
                }
            },
        }
        proof {
            assert(taken@.dirty =~= before.branches[number].dirty);
            lemma_with_branch(before, number, taken@);
        }
        self.put_branch(number, taken);
        assert(self@ =~= with_branch(before, number, taken@));
        proof {
            if taken@ == before.branches[number] {
                assert(self@.branches =~= before.branches);
            }
        }
        r
    }

    /// Makes a branch that shows what `source` shows, dirty pages included.
    pub fn fork(&mut self, source: CacheBranchId) -> (r: Result<CacheBranchId, CacheError>)
        requires
            old(self).wf(),
        ensures
            final(self).wf(),
            ({
                let v = old(self)@;
                let b = source.number();
                match r {
                    Ok(child) => {
                        &&& v.branches.contains_key(b)
                        &&& v.branches[b].active == Map::<u64, usize>::empty()
                        &&& v.next_branch < u64::MAX
                        &&& child.number() == v.next_branch
                        &&& final(self)@ == cache_forked(v, b)
                    },
                    Err(CacheError::Io(error)) => {
                        &&& v.branches.contains_key(b)
                        &&& v.branches[b].active == Map::<u64, usize>::empty()
                        &&& final(self)@ == v
                        &&& fork_fails::<S>(v.branches[b].nodes, v.branches[b].identities, error)
                    },
                    Err(e) => {
                        if !v.branches.contains_key(b) {
                            e == CacheError::BranchNotFound(b) && final(self)@ == v
                        } else if v.branches[b].active != Map::<u64, usize>::empty() {
                            e == CacheError::ActiveMappings && final(self)@ == v
                        } else {
                            &&& v.next_branch == u64::MAX
                            &&& e == CacheError::InvalidMapping("cache branch identity overflow")
                            &&& final(self)@ == with_branch(v, b, BranchView { exclusive: Set::empty(), ..v.branches[b] })
                        }
                    },
                }
            }),
    {
        let number: u64 = source.0;
        let ghost before = self@;
        let mut taken = match self.take_branch(number) {
            Some(taken) => taken,
            None => {
                return Err(CacheError::BranchNotFound(number));
            },
        };
        if !taken.active_pages.is_empty() {
            self.put_branch(number, taken);
            assert(self@.branches =~= before.branches);
            return Err(CacheError::ActiveMappings);
        }
        let store = match taken.store.fork_store() {
            Ok(store) => store,
            Err(error) => {
                self.put_branch(number, taken);
                assert(self@.branches =~= before.branches);
                return Err(CacheError::Io(error));
            },
        };
        let dirty_pages = taken.dirty_pages.fork();
        taken.exclusive_pages.clear();
        proof {
            assert(taken@.dirty =~= before.branches[number].dirty);
            lemma_with_branch(before, number, taken@);
        }
        self.put_branch(number, taken);
        assert(taken@ =~= (BranchView { exclusive: Set::empty(), ..before.branches[number] }));
        assert(self@ =~= with_branch(before, number, BranchView { exclusive: Set::empty(), ..before.branches[number] }));
        let child: u64 = self.next_branch;
        if child == u64::MAX {
            return Err(CacheError::InvalidMapping("cache branch identity overflow"));
        }
        let ghost kept = self@;
        self.next_branch = child + 1;
        let branch = CacheBranch {
            store,
            open_nodes: OrdMap::new(),
            active_pages: OrdMap::new(),
            exclusive_pages: OrdSet::new(),
            dirty_pages,
        };
        self.put_branch(child, branch);
        assert(self@ =~= cache_forked(before, number));
        proof {
            assert(self@.sound());
            assert forall|p: u64| #[trigger] self@.frames.contains_key(p) implies self@.referenced(p) by {
                assert(kept.frames.contains_key(p));
                lemma_still_referenced(kept, self@, p);
            }
        }
        Ok(CacheBranchId(child))
    }

    /// The identities that some branch sees for a page that was ever mapped.
    fn collect_seen(&mut self) -> (seen: OrdSet<S::PageIdentity>)
        ensures
            final(self)@ == old(self)@,
            seen@ == seen_identities::<S>(old(self)@),
    {
        let ghost before = self@;
        let mut seen: OrdSet<S::PageIdentity> = OrdSet::new();
        let numbers = self.branch_numbers();
        let branch_count: usize = numbers.len();
        let known_count: usize = self.known_pages.len();
        let ghost known = self.known_pages.members();
        let mut i: usize = 0;
        while i < known_count
            invariant
                i <= known_count,
                known_count == known.len(),
                known == self.known_pages.members(),
                self.known_pages.listed(),
                branch_count == numbers@.len(),
                self@ == before,
                before == old(self)@,
                forall|b: u64| #[trigger] before.branches.contains_key(b) <==> numbers@.contains(b),
                forall|x: Identity<S>| #[trigger] seen@.contains(x) <==> seen_before::<S>(before, known, i as int, x),
            decreases known_count - i,
        {
            let key: PageKey = *self.known_pages.at(i);
            let ghost earlier = seen@;
            let mut j: usize = 0;
            while j < branch_count
                invariant
                    j <= branch_count,
                    i < known_count,
                    known_count == known.len(),
                    known == self.known_pages.members(),
                    self.known_pages.listed(),
                    branch_count == numbers@.len(),
                    self@ == before,
                    forall|b: u64| #[trigger] before.branches.contains_key(b) <==> numbers@.contains(b),
                    forall|x: Identity<S>| #[trigger] seen@.contains(x) <==> earlier.contains(x) || seen_by_first::<S>(before, numbers@, j as int, key, x),
                decreases branch_count - j,
            {
                let number: u64 = numbers[j];
                assert(numbers@.contains(number));
                assert(before.branches.contains_key(number));
                let ghost inner = seen@;
                if let Some(mut branch) = self.take_branch(number) {
                    let found = branch.store.page_identity(key.0, key.1);
                    self.put_branch(number, branch);
                    assert(self@.branches =~= before.branches);
                    if let Ok(identity) = found {
                        seen.insert(identity);
                    }
                }
                assert forall|x: Identity<S>| #[trigger] seen@.contains(x) <==> earlier.contains(x) || seen_by_first::<S>(before, numbers@, j + 1, key, x) by {
                    if inner.contains(x) && !earlier.contains(x) {
                        let a = choose|a: int| 0 <= a < j && identity_at::<S>(before, #[trigger] numbers@[a], key.0, key.1 / 4096) == Some(x);
                        assert(identity_at::<S>(before, numbers@[a], key.0, key.1 / 4096) == Some(x));
                    }
                    if seen@.contains(x) && !inner.contains(x) {
                        assert(identity_at::<S>(before, numbers@[j as int], key.0, key.1 / 4096) == Some(x));
                    }
                }
                j += 1;
            }
            assert forall|x: Identity<S>| #[trigger] seen@.contains(x) <==> seen_before::<S>(before, known, i + 1, x) by {
                if seen_by_first::<S>(before, numbers@, branch_count as int, key, x) {
                    let a = choose|a: int| 0 <= a < branch_count && identity_at::<S>(before, #[trigger] numbers@[a], key.0, key.1 / 4096) == Some(x);
                    assert(numbers@.contains(numbers@[a]));
                    assert(before.branches.contains_key(numbers@[a]));
                    assert(sees::<S>(before, known[i as int].0, known[i as int].1 / 4096, x));
                }
                if seen_before::<S>(before, known, i + 1, x) {
                    let a = choose|a: int| 0 <= a < i + 1 && sees::<S>(before, (#[trigger] known[a]).0, known[a].1 / 4096, x);
                    if a < i {
                        assert(seen_before::<S>(before, known, i as int, x));
                    } else {
                        let b = choose|b: u64| #[trigger] before.branches.contains_key(b) && identity_at::<S>(before, b, key.0, key.1 / 4096) == Some(x);
                        let c = choose|c: int| 0 <= c < numbers@.len() && numbers@[c] == b;
                        assert(identity_at::<S>(before, numbers@[c], key.0, key.1 / 4096) == Some(x));
                    }
                }
                if seen_before::<S>(before, known, i as int, x) {
                    let a = choose|a: int| 0 <= a < i && sees::<S>(before, (#[trigger] known[a]).0, known[a].1 / 4096, x);
                    assert(sees::<S>(before, known[a].0, known[a].1 / 4096, x));
                }
            }
            i += 1;
        }
        assert(seen@ =~= seen_identities::<S>(before)) by {
            assert forall|x: Identity<S>| #[trigger] seen@.contains(x) <==> seen_identities::<S>(before).contains(x) by {
                if seen_before::<S>(before, known, known_count as int, x) {
                    let a = choose|a: int| 0 <= a < known_count && sees::<S>(before, (#[trigger] known[a]).0, known[a].1 / 4096, x);
                    assert(before.known.contains(known[a]));
                }
                if seen_identities::<S>(before).contains(x) {
                    let k = choose|k: PageKey| #[trigger] before.known.contains(k) && sees::<S>(before, k.0, k.1 / 4096, x);
                    assert(known.contains(k));
                    let a = choose|a: int| 0 <= a < known.len() && known[a] == k;
                    assert(sees::<S>(before, known[a].0, known[a].1 / 4096, x));
                }
            }
        }
        seen
    }
}

/// Whether the identity is seen for one of the first `n` pages.
spec fn seen_before<S: ForkableNodeStore>(v: CacheView<Identity<S>>, known: Seq<PageKey>, n: int, x: Identity<S>) -> bool {
    exists|a: int| 0 <= a < n && sees::<S>(v, (#[trigger] known[a]).0, known[a].1 / 4096, x)
}

/// Whether one of the first `n` branches sees the identity for the page.
spec fn seen_by_first<S: ForkableNodeStore>(v: CacheView<Identity<S>>, numbers: Seq<u64>, n: int, key: PageKey, x: Identity<S>) -> bool {
    exists|a: int| 0 <= a < n && identity_at::<S>(v, #[trigger] numbers[a], key.0, key.1 / 4096) == Some(x)
}

impl<S: ForkableNodeStore> SharedPageCache<S> {
    /// Removes a branch, and the pages that no other branch sees.
    pub fn remove_branch(&mut self, branch: CacheBranchId) -> (r: Result<(), CacheError>)
        requires
            old(self).wf(),
        ensures
            final(self).wf(),
            ({
                let v = old(self)@;
                let b = branch.number();
                if !v.branches.contains_key(b) {
                    r == Err::<(), CacheError>(CacheError::BranchNotFound(b)) && final(self)@ == v
                } else if v.branches[b].active != Map::<u64, usize>::empty() {
                    r == Err::<(), CacheError>(CacheError::ActiveMappings) && final(self)@ == v
                } else {
                    r is Ok && final(self)@ == branch_removed::<S>(v, b)
                }
            }),
    {
        let number: u64 = branch.0;
        let ghost before = self@;
        match self.branches.get(&number) {
            None => {
                return Err(CacheError::BranchNotFound(number));
            },
            Some(branch) => {
                assert(branch@ == before.branches[number]);
                if !branch.active_pages.is_empty() {
                    return Err(CacheError::ActiveMappings);
                }
            },
        }
        let removed = self.take_branch(number);
        let ghost rest = self@;
        let seen = self.collect_seen();
        self.keep_pages(&seen);
        assert(self@.sound()) by {
            assert forall|i: Identity<S>| #[trigger] self@.pages.contains_key(i) implies self@.frames.contains_key(self@.pages[i]) by {
                assert(before.pages.contains_key(i));
            }
            assert forall|i: Identity<S>, j: Identity<S>|
                self@.pages.contains_key(i) && self@.pages.contains_key(j) && #[trigger] self@.pages[i] == #[trigger] self@.pages[j] implies i == j by {
                assert(before.pages.contains_key(i) && before.pages.contains_key(j));
                assert(before.pages[i] == before.pages[j]);
            }
            assert forall|b: u64, page: u64| #![trigger self@.branches[b].active.contains_key(page)]
                self@.branches.contains_key(b) && self@.branches[b].active.contains_key(page) implies self@.frames.contains_key(page) && self@.branches[b].active[page] > 0 by {
                assert(before.branches[b].active.contains_key(page));
            }
            assert forall|b: u64, k: PageKey| #![trigger self@.branches[b].dirty.contains_key(k)]
                self@.branches.contains_key(b) && self@.branches[b].dirty.contains_key(k) implies k.1 % 4096 == 0 by {
                assert(before.branches[b].dirty.contains_key(k));
            }
        }
        proof {
            lemma_swept(self@);
        }
        self.sweep();
        assert(self@ =~= branch_removed::<S>(before, number));
        Ok(())
    }

    /// Keeps the pages of the given identities only.
    fn keep_pages(&mut self, kept: &OrdSet<S::PageIdentity>)
        ensures
            final(self)@ == (CacheView { pages: old(self)@.pages.restrict(kept@), ..old(self)@ }),
    {
        let ghost before = self@;
        let n: usize = self.pages.len();
        let mut gone: Vec<S::PageIdentity> = Vec::new();
        let mut i: usize = 0;
        while i < n
            invariant
                i <= n,
                *self == *old(self),
                n == self.pages.keys().len(),
                self.pages.listed(),
                forall|x: Identity<S>| #[trigger] has_identity::<S>(gone@, gone@.len() as int, x) <==> among(self.pages.keys(), i as int, x) && !kept@.contains(x),
            decreases n - i,
        {
            proof {
                lemma_among(self.pages.keys(), i as int);
            }
            let ghost earlier = gone@;
            let identity = self.pages.key_at(i);
            if !kept.contains(identity) {
                gone.push(identity.duplicate());
                proof {
                    lemma_has_identity::<S>(gone@, earlier.len() as int);
                    assert forall|x: Identity<S>| has_identity::<S>(earlier, earlier.len() as int, x) == #[trigger] has_identity::<S>(gone@, earlier.len() as int, x) by {
                        if has_identity::<S>(earlier, earlier.len() as int, x) {
                            let a = choose|a: int| 0 <= a < earlier.len() && (#[trigger] earlier[a])@ == x;
                            assert(gone@[a]@ == x);
                        }
                        if has_identity::<S>(gone@, earlier.len() as int, x) {
                            let a = choose|a: int| 0 <= a < earlier.len() && (#[trigger] gone@[a])@ == x;
                            assert(earlier[a]@ == x);
                        }
                    }
                }
            }
            i += 1;
        }
        let m: usize = gone.len();
        i = 0;
        while i < m
            invariant
                i <= m,
                m == gone@.len(),
                self@ == (CacheView { pages: self@.pages, ..before }),
                forall|x: Identity<S>| #[trigger] self@.pages.contains_key(x) <==> before.pages.contains_key(x) && !has_identity::<S>(gone@, i as int, x),
                forall|x: Identity<S>| #[trigger] self@.pages.contains_key(x) ==> self@.pages[x] == before.pages[x],
            decreases m - i,
        {
            proof {
                lemma_has_identity::<S>(gone@, i as int);
            }
            self.pages.remove(&gone[i]);
            i += 1;
        }
        assert(self@.pages =~= before.pages.restrict(kept@)) by {
            assert forall|x: Identity<S>| before.pages.contains_key(x) implies among(old(self).pages.keys(), n as int, x) by {
                assert(old(self).pages.keys().contains(x));
            }
        }
    }

    /// Counts the pages that the given branches see, and those that two or more of them see.
    pub fn page_accounting(&mut self, branches: &Vec<CacheBranchId>) -> (r: Result<CachePageAccounting, CacheError>)
        requires
            old(self).wf(),
        ensures
            final(self)@ == old(self)@,
            match r {
                Ok(accounting) => {
                    let sets = branches@.map_values(|id: CacheBranchId| branch_pages::<S>(old(self)@, id.number()));
                    &&& forall|i: int| 0 <= i < branches@.len() ==> old(self)@.branches.contains_key((#[trigger] branches@[i]).number())
                    &&& accounting.resident_pages == held(sets).len()
                    &&& accounting.shared_pages == held_twice(sets).len()
                },
                Err(e) => exists|i: int|
                    {
                        &&& 0 <= i < branches@.len()
                        &&& e == CacheError::BranchNotFound((#[trigger] branches@[i]).number())
                        &&& !old(self)@.branches.contains_key(branches@[i].number())
                        &&& forall|j: int| 0 <= j < i ==> old(self)@.branches.contains_key((#[trigger] branches@[j]).number())
                    },
            },
    {
        let ghost before = self@;
        let mut census = Census::new();
        let n: usize = branches.len();
        let mut i: usize = 0;
        while i < n
            invariant
                i <= n,
                n == branches@.len(),
                self@ == before,
                before == old(self)@,
                census.wf(),
                census.sets() == branches@.take(i as int).map_values(|id: CacheBranchId| branch_pages::<S>(before, id.number())),
                forall|j: int| 0 <= j < i ==> before.branches.contains_key((#[trigger] branches@[j]).number()),
            decreases n - i,
        {
            let number: u64 = branches[i].0;
            if !self.branches.contains_key(&number) {
                assert(!before.branches.contains_key(branches@[i as int].number()));
                return Err(CacheError::BranchNotFound(number));
            }
            let pages = self.collect_branch_pages(number);
            census.count_set(&pages);
            assert(census.sets() =~= branches@.take(i + 1).map_values(|id: CacheBranchId| branch_pages::<S>(before, id.number())));
            i += 1;
        }
        assert(branches@.take(n as int) =~= branches@);
        Ok(CachePageAccounting { resident_pages: census.resident(), shared_pages: census.shared() })
    }

    /// The pages that a branch sees.
    fn collect_branch_pages(&mut self, number: u64) -> (seen: OrdSet<u64>)
        requires
            old(self)@.branches.contains_key(number),
        ensures
            final(self)@ == old(self)@,
            seen@ == branch_pages::<S>(old(self)@, number),
    {
        let ghost before = self@;
        let mut seen: OrdSet<u64> = OrdSet::new();
        let known_count: usize = self.known_pages.len();
        let ghost known = self.known_pages.members();
        let mut i: usize = 0;
        while i < known_count
            invariant
                i <= known_count,
                known_count == known.len(),
                known == self.known_pages.members(),
                self.known_pages.listed(),
                self@ == before,
                before.branches.contains_key(number),
                forall|page: u64| #[trigger] seen@.contains(page) <==> page_among_first::<S>(before, number, known, i as int, page),
            decreases known_count - i,
        {
            let key: PageKey = *self.known_pages.at(i);
            let ghost earlier = seen@;
            if let Some(mut branch) = self.take_branch(number) {
                let found = branch.store.page_identity(key.0, key.1);
                self.put_branch(number, branch);
                assert(self@.branches =~= before.branches);
                if let Ok(identity) = found {
                    if let Some(page) = self.pages.get(&identity) {
                        seen.insert(*page);
                    }
                }
            }
            assert forall|page: u64| #[trigger] seen@.contains(page) <==> page_among_first::<S>(before, number, known, i + 1, page) by {
                if earlier.contains(page) {
                    let a = choose|a: int| 0 <= a < i && #[trigger] shows::<S>(before, number, known[a], page);
                    assert(shows::<S>(before, number, known[a], page));
                }
                if seen@.contains(page) && !earlier.contains(page) {
                    assert(shows::<S>(before, number, known[i as int], page));
                }
                if page_among_first::<S>(before, number, known, i + 1, page) {
                    let a = choose|a: int| 0 <= a < i + 1 && #[trigger] shows::<S>(before, number, known[a], page);
                    if a < i {
                        assert(page_among_first::<S>(before, number, known, i as int, page));
                    }
                }
            }
            i += 1;
        }
        assert(seen@ =~= branch_pages::<S>(before, number)) by {
            assert forall|page: u64| #[trigger] seen@.contains(page) <==> branch_pages::<S>(before, number).contains(page) by {
                if page_among_first::<S>(before, number, known, known_count as int, page) {
                    let a = choose|a: int| 0 <= a < known_count && #[trigger] shows::<S>(before, number, known[a], page);
                    assert(before.known.contains(known[a]));
                }
                if branch_pages::<S>(before, number).contains(page) {
                    let k = choose|k: PageKey| #[trigger] before.known.contains(k) && shows::<S>(before, number, k, page);
                    assert(known.contains(k));
                    let a = choose|a: int| 0 <= a < known.len() && known[a] == k;
                    assert(shows::<S>(before, number, known[a], page));
                }
            }
        }
        seen
    }
}

/// Whether the page stands for what branch `b` sees at the page of the node.
pub open spec fn shows<S: ForkableNodeStore>(v: CacheView<Identity<S>>, b: u64, key: PageKey, page: u64) -> bool {
    cached::<S>(v, b, key.0, key.1) && page_at::<S>(v, b, key.0, key.1) == page
}

/// The pages that branch `b` sees.
pub open spec fn branch_pages<S: ForkableNodeStore>(v: CacheView<Identity<S>>, b: u64) -> Set<u64> {
    Set::new(|page: u64| exists|k: PageKey| #[trigger] v.known.contains(k) && shows::<S>(v, b, k, page))
}

/// Whether branch `b` sees the page at one of the first `n` places.
spec fn page_among_first<S: ForkableNodeStore>(v: CacheView<Identity<S>>, b: u64, known: Seq<PageKey>, n: int, page: u64) -> bool {
    exists|a: int| 0 <= a < n && #[trigger] shows::<S>(v, b, known[a], page)
}

/// Whether the identity is one of the first `n`.
spec fn has_identity<S: ForkableNodeStore>(list: Seq<S::PageIdentity>, n: int, x: Identity<S>) -> bool {
    exists|a: int| 0 <= a < n && (#[trigger] list[a])@ == x
}

proof fn lemma_has_identity<S: ForkableNodeStore>(list: Seq<S::PageIdentity>, n: int)
    requires
        0 <= n < list.len(),
    ensures
        forall|x: Identity<S>| #[trigger] has_identity::<S>(list, n + 1, x) <==> has_identity::<S>(list, n, x) || x == list[n]@,
{
    assert forall|x: Identity<S>| #[trigger] has_identity::<S>(list, n + 1, x) <==> has_identity::<S>(list, n, x) || x == list[n]@ by {
        if has_identity::<S>(list, n, x) {
            let a = choose|a: int| 0 <= a < n && (#[trigger] list[a])@ == x;
            assert(list[a]@ == x);
        }
        if has_identity::<S>(list, n + 1, x) && x != list[n]@ {
            let a = choose|a: int| 0 <= a < n + 1 && (#[trigger] list[a])@ == x;
            assert(list[a]@ == x && a < n);
        }
        if x == list[n]@ {
            assert(list[n]@ == x);
        }
    }
}

impl<S: ForkableNodeStore> SharedPageCache<S> {
    /// The length of a node of a branch.
    pub(crate) fn node_len(&mut self, branch: CacheBranchId, node: NodeId) -> (r: Result<u64, CacheError>)
        ensures
            final(self)@ == old(self)@,
            match r {
                Ok(len) => {
                    &&& old(self)@.branches.contains_key(branch.number())
                    &&& old(self)@.branches[branch.number()].nodes.contains_key(node)
                    &&& len == old(self)@.branches[branch.number()].nodes[node].len()
                },
                Err(CacheError::Io(error)) => {
                    let was = old(self)@.branches[branch.number()];
                    old(self)@.branches.contains_key(branch.number()) && len_fails::<S>(was.nodes, was.identities, node, error)
                },
                Err(e) => !old(self)@.branches.contains_key(branch.number()) && e == CacheError::BranchNotFound(branch.number()),
            },
    {
        let number: u64 = branch.0;
        let ghost before = self@;
        let mut taken = match self.take_branch(number) {
            Some(taken) => taken,
            None => {
                return Err(CacheError::BranchNotFound(number));
            },
        };
        let len = taken.store.len(node);
        self.put_branch(number, taken);
        assert(self@.branches =~= before.branches);
        match len {
            Ok(len) => Ok(len),
            Err(error) => Err(CacheError::Io(error)),
        }
    }
}

/// The cache once a dirty page of a node of `len` bytes is written back.
pub open spec fn page_synced<S: ForkableNodeStore>(v: CacheView<Identity<S>>, b: u64, len: int, key: PageKey) -> CacheView<Identity<S>> {
    let branch = v.branches[b];
    let nodes = if key.1 >= len {
        branch.nodes
    } else {
        branch.nodes.insert(
            key.0,
            file_written(branch.nodes[key.0], key.1 as int, synced_bytes(v.frames[page_at::<S>(v, b, key.0, key.1)], key.1 as int, len)),
        )
    };
    with_branch(v, b, BranchView { nodes, dirty: branch.dirty.insert(key, false), ..branch })
}

/// The cache once the first `count` of the pages are written back.
pub open spec fn pages_synced<S: ForkableNodeStore>(v: CacheView<Identity<S>>, b: u64, len: int, pages: Seq<PageKey>, count: int) -> CacheView<Identity<S>>
    decreases count,
{
    if count <= 0 {
        v
    } else {
        page_synced::<S>(pages_synced::<S>(v, b, len, pages, count - 1), b, len, pages[count - 1])
    }
}

/// Whether the stores of two states differ in no node but one of branch `b`.
pub open spec fn differs_in_node<I>(v: CacheView<I>, w: CacheView<I>, b: u64, node: NodeId) -> bool {
    &&& w == with_branch(v, b, BranchView { nodes: w.branches[b].nodes, ..v.branches[b] })
    &&& forall|n: NodeId| n != node ==> (#[trigger] w.branches[b].nodes.contains_key(n) <==> v.branches[b].nodes.contains_key(n))
    &&& forall|n: NodeId| n != node && #[trigger] w.branches[b].nodes.contains_key(n) ==> w.branches[b].nodes[n] == v.branches[b].nodes[n]
}

/// Whether the error is one with which writing a dirty page of a node of `len` bytes back ends.
pub open spec fn page_sync_fails<S: ForkableNodeStore>(v: CacheView<Identity<S>>, b: u64, len: int, key: PageKey, error: IoError) -> bool {
    let branch = v.branches[b];
    ||| identity_fails::<S>(branch.nodes, branch.identities, key.0, key.1, error)
    ||| cached::<S>(v, b, key.0, key.1) && store_fails::<S>(
        branch.nodes,
        branch.identities,
        key.0,
        key.1,
        synced_bytes(v.frames[page_at::<S>(v, b, key.0, key.1)], key.1 as int, len),
        error,
    )
}

/// Whether `w` is the cache once branch `b` has synced a node with result `r`.
pub open spec fn sync_ends<S: ForkableNodeStore>(v: CacheView<Identity<S>>, w: CacheView<Identity<S>>, b: u64, node: NodeId, r: Result<(), CacheError>) -> bool {
    let len = v.branches[b].nodes[node].len() as int;
    match r {
        Ok(()) => {
            &&& v.branches.contains_key(b)
            &&& v.branches[b].nodes.contains_key(node)
            &&& exists|pages: Seq<PageKey>|
                {
                    &&& #[trigger] dirty_pages(v.branches[b].dirty, node, pages)
                    &&& w == pages_synced::<S>(v, b, len, pages, pages.len() as int)
                    &&& forall|i: int| 0 <= i < pages.len() && (#[trigger] pages[i]).1 < len ==> cached::<S>(v, b, node, pages[i].1)
                }
        },
        Err(CacheError::BranchNotFound(number)) => number == b && !v.branches.contains_key(b) && w == v,
        Err(CacheError::StaleMapping) => exists|pages: Seq<PageKey>, count: int|
            {
                &&& v.branches.contains_key(b)
                &&& #[trigger] dirty_pages(v.branches[b].dirty, node, pages)
                &&& 0 <= count < pages.len()
                &&& w == #[trigger] pages_synced::<S>(v, b, len, pages, count)
                &&& pages[count].1 < len
                &&& identity_at::<S>(v, b, node, pages[count].1 / 4096) is Some
                &&& !cached::<S>(v, b, node, pages[count].1)
            },
        Err(CacheError::Io(error)) => {
            &&& v.branches.contains_key(b)
            &&& {
                ||| w == v && len_fails::<S>(v.branches[b].nodes, v.branches[b].identities, node, error)
                ||| exists|pages: Seq<PageKey>, count: int|
                    {
                        let u = #[trigger] pages_synced::<S>(v, b, len, pages, count);
                        &&& #[trigger] dirty_pages(v.branches[b].dirty, node, pages)
                        &&& 0 <= count < pages.len()
                        &&& pages[count].1 < len
                        &&& differs_in_node(u, w, b, node)
                        &&& page_sync_fails::<S>(u, b, len, pages[count], error)
                    }
            }
        },
        Err(_) => false,
    }
}

impl<S: ForkableNodeStore> SharedPageCache<S> {
    /// Writes one dirty page back.
    fn sync_page(&mut self, number: u64, file_len: u64, key: PageKey) -> (r: Result<(), CacheError>)
        requires
            old(self).wf(),
            old(self)@.branches.contains_key(number),
            key.1 % 4096 == 0,
        ensures
            final(self).wf(),
            ({
                let v = old(self)@;
                match r {
                    Ok(()) => {
                        &&& final(self)@ == page_synced::<S>(v, number, file_len as int, key)
                        &&& key.1 < file_len ==> cached::<S>(v, number, key.0, key.1) && v.branches[number].nodes.contains_key(key.0)
                    },
                    Err(CacheError::StaleMapping) => {
                        &&& key.1 < file_len
                        &&& identity_at::<S>(v, number, key.0, key.1 / 4096) is Some
                        &&& !cached::<S>(v, number, key.0, key.1)
                        &&& final(self)@ == v
                    },
                    Err(e) => {
                        &&& key.1 < file_len
                        &&& differs_in_node(v, final(self)@, number, key.0)
                        &&& e matches CacheError::Io(error) && page_sync_fails::<S>(v, number, file_len as int, key, error)
                    },
                }
            }),
    {
        let ghost v = self@;
        let mut branch = match self.take_branch(number) {
            Some(branch) => branch,
            None => {
                return Err(CacheError::BranchNotFound(number));
            },
        };
        let ghost was = branch@;
        let mut r: Result<(), CacheError> = Ok(());
        if key.1 < file_len {
            match branch.store.page_identity(key.0, key.1) {
                Err(error) => {
                    r = Err(CacheError::Io(error));
                },
                Ok(identity) => {
                    match self.pages.get(&identity) {
                        None => {
                            r = Err(CacheError::StaleMapping);
                        },
                        Some(page) => {
                            let page: u64 = *page;
                            assert(v.pages.contains_key(identity@));
                            assert(v.frames.contains_key(page));
                            assert(self.frames@.contains_key(page));
                            if let Some(bytes) = self.frames.get(&page) {
                                assert(bytes@ == v.frames[page]);
                                let count: usize = readable_len(file_len, key.1, 4096);
                                let source = vstd::slice::slice_subrange(bytes.as_slice(), 0, count);
                                assert(source@ =~= synced_bytes(v.frames[page], key.1 as int, file_len as int));
                                match branch.store.write_node(key.0, key.1, source) {
                                    Err(error) => {
                                        r = Err(CacheError::Io(error));
                                    },
                                    Ok(written) => {
                                        assert(write_answered::<S>(was.nodes, was.identities, key.0, key.1, source@, Ok(written)));
                                        if let Err(error) = fully_written(written, count) {
                                            r = Err(CacheError::Io(error));
                                        } else {
                                            assert(source@.take(count as int) =~= source@);
                                        }
                                    },
                                }
                            }
                        },
                    }
                },
            }
        }
        if r.is_ok() {
            branch.dirty_pages.mark_clean(key);
        }
        proof {
            assert forall|k: PageKey| #[trigger] branch@.dirty.contains_key(k) implies k.1 % 4096 == 0 by {
                if k != key {
                    assert(v.branches[number].dirty.contains_key(k));
                }
            }
            lemma_with_branch(v, number, branch@);
        }
        self.put_branch(number, branch);
        assert(self@ =~= with_branch(v, number, branch@));
        proof {
            if r is Ok {
                assert(branch@ =~= page_synced::<S>(v, number, file_len as int, key).branches[number]);
            } else if r == Err::<(), CacheError>(CacheError::StaleMapping) {
                assert(self@.branches =~= v.branches);
            }
        }
        r
    }

    /// Writes the dirty pages of a node back to the branch's store, in order.
    pub fn sync(&mut self, branch_id: CacheBranchId, node: NodeId) -> (r: Result<(), CacheError>)
        requires
            old(self).wf(),
        ensures
            final(self).wf(),
            sync_ends::<S>(old(self)@, final(self)@, branch_id.number(), node, r),
    {
        let ghost v = self@;
        let number: u64 = branch_id.0;
        let pages = match self.branches.get(&number) {
            None => {
                return Err(CacheError::BranchNotFound(number));
            },
            Some(branch) => {
                assert(branch@ == v.branches[number]);
                branch.dirty_pages.pages_for_node(node)
            },
        };
        let file_len: u64 = match self.node_len(branch_id, node) {
            Ok(file_len) => file_len,
            Err(error) => {
                return Err(error);
            },
        };
        let n: usize = pages.len();
        let mut i: usize = 0;
        while i < n
            invariant
                i <= n,
                n == pages@.len(),
                number == branch_id.number(),
                v == old(self)@,
                self@.wf(),
                v.wf(),
                v.branches.contains_key(number),
                v.branches[number].nodes.contains_key(node),
                file_len == v.branches[number].nodes[node].len(),
                dirty_pages(v.branches[number].dirty, node, pages@),
                self@ == pages_synced::<S>(v, number, file_len as int, pages@, i as int),
                self@.branches.contains_key(number),
                self@.pages == v.pages,
                self@.frames == v.frames,
                self@.branches[number].identities == v.branches[number].identities,
                forall|j: int| 0 <= j < i && (#[trigger] pages@[j]).1 < file_len ==> cached::<S>(v, number, node, pages@[j].1),
            decreases n - i,
        {
            let key: PageKey = pages[i];
            assert(pages@.contains(key));
            assert(v.branches[number].dirty.contains_key(key));
            let ghost before = self@;
            match self.sync_page(number, file_len, key) {
                Ok(()) => {},
                Err(error) => {
                    return Err(error);
                },
            }
            i += 1;
        }
        Ok(())
    }
}

impl<S: ForkableNodeStore> SharedPageCache<S> {
    /// What the cache shows of a branch's store is what the store holds.
    pub proof fn lemma_store_of(&self, b: u64)
        requires
            self@.branches.contains_key(b),
        ensures
            self.store_of(b).nodes() == self@.branches[b].nodes,
            self.store_of(b).identities() == self@.branches[b].identities,
    {
    }
}

} // verus!
