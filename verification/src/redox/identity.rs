//! The identities that a filesystem branch gives to its file pages.

use vstd::prelude::*;

use crate::cache::dirty::PageKey;
use crate::cache::store::NodeId;
use crate::io::{IoError, EIO};
use crate::layered::Layered;
use crate::ordered::{Key, OrdMap, Position};
#[allow(unused_imports)]
use crate::ordered::ascending;

verus! {

/// A page of a file: the file's object, the page's number, and which version of the page it is.
#[derive(Clone, Copy, Debug, Eq, Ord, PartialEq, PartialOrd, Structural)]
pub struct RedoxPageIdentity(pub u64, pub u64, pub u64);

impl View for RedoxPageIdentity {
    type V = RedoxPageIdentity;

    open spec fn view(&self) -> RedoxPageIdentity {
        *self
    }
}

impl Key for RedoxPageIdentity {
    open spec fn less(a: RedoxPageIdentity, b: RedoxPageIdentity) -> bool {
        a.0 < b.0 || a.0 == b.0 && (a.1 < b.1 || a.1 == b.1 && a.2 < b.2)
    }

    proof fn less_total(a: RedoxPageIdentity, b: RedoxPageIdentity) {
    }

    proof fn less_irreflexive(a: RedoxPageIdentity) {
    }

    proof fn less_transitive(a: RedoxPageIdentity, b: RedoxPageIdentity, c: RedoxPageIdentity) {
    }

    fn position(&self, other: &RedoxPageIdentity) -> (p: Position) {
        match self.0.position(&other.0) {
            Position::Before => Position::Before,
            Position::After => Position::After,
            Position::Same => match self.1.position(&other.1) {
                Position::Before => Position::Before,
                Position::After => Position::After,
                Position::Same => self.2.position(&other.2),
            },
        }
    }

    fn duplicate(&self) -> (copy: RedoxPageIdentity) {
        *self
    }
}

/// Where new identities come from; the branches of all filesystems draw from one source.
#[derive(Debug)]
pub struct IdentitySource {
    pub next_object: u64,
    pub next_version: u64,
}

impl IdentitySource {
    pub fn new() -> (source: Self)
        ensures
            source == (IdentitySource { next_object: 1, next_version: 1 }),
    {
        IdentitySource { next_object: 1, next_version: 1 }
    }
}

/// What a branch knows of its files and pages.
#[verifier::ext_equal]
pub struct IdentityView {
    /// The object behind each node.
    pub files: Map<NodeId, u64>,
    /// The version of each page that was ever written, under its node and number.
    pub pages: Map<PageKey, u64>,
}

impl IdentityView {
    /// The identity of a page; a page that was never written has version zero.
    pub open spec fn identity(self, node: NodeId, page: u64) -> Option<RedoxPageIdentity> {
        if self.files.contains_key(node) {
            Some(
                RedoxPageIdentity(
                    self.files[node],
                    page,
                    if self.pages.contains_key((node, page)) {
                        self.pages[(node, page)]
                    } else {
                        0
                    },
                ),
            )
        } else {
            None
        }
    }

    /// Whether all objects and versions were drawn from the source.
    pub open spec fn drawn_from(self, source: IdentitySource) -> bool {
        &&& forall|node: NodeId| #[trigger] self.files.contains_key(node) ==> self.files[node] < source.next_object
        &&& forall|k: PageKey| #[trigger] self.pages.contains_key(k) ==> self.pages[k] < source.next_version
        &&& 0 < source.next_version
    }

    /// The branch once a page is about to be written.
    pub open spec fn prepared(self, node: NodeId, page: u64, version: u64) -> IdentityView {
        IdentityView { pages: self.pages.insert((node, page), version), ..self }
    }

    /// The branch once a write of `len` bytes at `offset` is recorded, with versions from `next`
    /// on.
    pub open spec fn written(self, node: NodeId, offset: int, len: int, next: int) -> IdentityView {
        IdentityView {
            pages: Map::new(
                |k: PageKey| self.pages.contains_key(k) || in_write(node, offset, len, k),
                |k: PageKey|
                    if in_write(node, offset, len, k) {
                        (next + k.1 - offset / 4096) as u64
                    } else {
                        self.pages[k]
                    },
            ),
            ..self
        }
    }
}

/// Whether a write of `len` bytes at `offset` of a node reaches the page.
pub open spec fn in_write(node: NodeId, offset: int, len: int, k: PageKey) -> bool {
    k.0 == node && len > 0 && offset / 4096 <= k.1 <= (offset + len - 1) / 4096
}

/// How many pages a write of `len` bytes at `offset` reaches.
pub open spec fn pages_in_write(offset: int, len: int) -> int {
    if len == 0 {
        0
    } else {
        (offset + len - 1) / 4096 - offset / 4096 + 1
    }
}

/// A file's identity, as it is kept with a saved branch.
#[derive(Clone, Copy, Debug, Eq, PartialEq, Structural)]
pub struct RedoxFileIdentity {
    pub node: NodeId,
    pub object: u64,
}

/// A page's version, as it is kept with a saved branch.
#[derive(Clone, Copy, Debug, Eq, PartialEq, Structural)]
pub struct RedoxPageVersion {
    pub node: NodeId,
    pub page: u64,
    pub version: u64,
}

/// The identities of one branch, over those it was forked with.
#[derive(Debug)]
pub struct IdentityBranch {
    files: Layered<NodeId, u64>,
    pages: Layered<PageKey, u64>,
}

impl View for IdentityBranch {
    type V = IdentityView;

    closed spec fn view(&self) -> IdentityView {
        IdentityView { files: self.files@, pages: self.pages@ }
    }
}

impl IdentityBranch {
    pub fn new() -> (branch: Self)
        ensures
            branch@ == (IdentityView { files: Map::empty(), pages: Map::empty() }),
    {
        IdentityBranch { files: Layered::new(), pages: Layered::new() }
    }

    /// Makes a branch that gives out the same identities.
    pub fn fork(&mut self) -> (child: Self)
        ensures
            final(self)@ == old(self)@,
            child@ == old(self)@,
    {
        IdentityBranch { files: self.files.fork(), pages: self.pages.fork() }
    }

    /// Gives a node an object of its own.
    pub fn create_file(&mut self, node: NodeId, source: &mut IdentitySource)
        requires
            old(source).next_object < u64::MAX,
        ensures
            final(self)@ == (IdentityView { files: old(self)@.files.insert(node, old(source).next_object), ..old(self)@ }),
            *final(source) == (IdentitySource { next_object: (old(source).next_object + 1) as u64, ..*old(source) }),
    {
        self.files.insert(node, source.next_object);
        source.next_object = source.next_object + 1;
    }

    /// The identity of the page at `offset` of a node.
    pub fn page_identity(&self, node: NodeId, offset: u64) -> (r: Result<RedoxPageIdentity, IoError>)
        ensures
            match self@.identity(node, offset / 4096) {
                Some(identity) => r == Ok::<RedoxPageIdentity, IoError>(identity),
                None => r == Err::<RedoxPageIdentity, IoError>(IoError::Os(EIO)),
            },
    {
        let object: u64 = match self.files.get(&node) {
            Some(object) => *object,
            None => {
                return Err(IoError::Os(EIO));
            },
        };
        let page: u64 = offset / 4096;
        let version: u64 = match self.pages.get(&(node, page)) {
            Some(version) => *version,
            None => 0,
        };
        Ok(RedoxPageIdentity(object, page, version))
    }

    /// Gives the pages that a write reached versions of their own.
    pub fn record_write(&mut self, node: NodeId, offset: u64, len: usize, source: &mut IdentitySource) -> (r: Result<(), IoError>)
        requires
            old(source).next_version + pages_in_write(offset as int, len as int) <= u64::MAX,
        ensures
            if len > 0 && offset + len > u64::MAX {
                &&& r == Err::<(), IoError>(IoError::Os(EIO))
                &&& final(self)@ == old(self)@
                &&& *final(source) == *old(source)
            } else {
                &&& r == Ok::<(), IoError>(())
                &&& final(self)@ == old(self)@.written(node, offset as int, len as int, old(source).next_version as int)
                &&& *final(source) == (IdentitySource {
                    next_version: (old(source).next_version + pages_in_write(offset as int, len as int)) as u64,
                    ..*old(source)
                })
            },
    {
        let ghost before = self@;
        let ghost next = source.next_version as int;
        if len == 0 {
            assert(self@ =~= before.written(node, offset as int, 0, next));
            return Ok(());
        }
        let end: u64 = match offset.checked_add(len as u64) {
            Some(end) => end,
            None => {
                return Err(IoError::Os(EIO));
            },
        };
        let first: u64 = offset / 4096;
        let last: u64 = (end - 1) / 4096;
        let count: u64 = last - first + 1;
        let mut done: u64 = 0;
        while done < count
            invariant
                done <= count,
                count == last - first + 1,
                first == offset / 4096,
                last == (offset + len - 1) / 4096,
                first <= last,
                before == old(self)@,
                next == old(source).next_version,
                next + count <= u64::MAX,
                self@.files == before.files,
                source.next_version == next + done,
                source.next_object == old(source).next_object,
                forall|k: PageKey| #[trigger] self@.pages.contains_key(k) <==> before.pages.contains_key(k) || k.0 == node && first <= k.1 < first + done,
                forall|k: PageKey| #[trigger] self@.pages.contains_key(k) ==> self@.pages[k] == (if k.0 == node && first <= k.1 < first + done {
                    (next + k.1 - first) as u64
                } else {
                    before.pages[k]
                }),
            decreases count - done,
        {
            let ghost earlier = self@.pages;
            let key: PageKey = (node, first + done);
            self.pages.insert(key, source.next_version);
            assert(self@.pages == earlier.insert(key, source.next_version));
            assert forall|k: PageKey| #[trigger] self@.pages.contains_key(k) <==> earlier.contains_key(k) || k == key by {}
            source.next_version = source.next_version + 1;
            done += 1;
        }
        assert(self@.pages =~= before.written(node, offset as int, len as int, next).pages);
        Ok(())
    }

    /// Gives the page at `offset` of a node a version of its own.
    pub fn prepare_page_write(&mut self, node: NodeId, offset: u64, source: &mut IdentitySource) -> (r: Result<RedoxPageIdentity, IoError>)
        requires
            old(source).next_version < u64::MAX,
        ensures
            final(self)@ == old(self)@.prepared(node, offset / 4096, old(source).next_version),
            *final(source) == (IdentitySource { next_version: (old(source).next_version + 1) as u64, ..*old(source) }),
            match final(self)@.identity(node, offset / 4096) {
                Some(identity) => r == Ok::<RedoxPageIdentity, IoError>(identity),
                None => r == Err::<RedoxPageIdentity, IoError>(IoError::Os(EIO)),
            },
    {
        let page: u64 = offset / 4096;
        self.pages.insert((node, page), source.next_version);
        source.next_version = source.next_version + 1;
        self.page_identity(node, offset)
    }

    /// The files that the branch sees, in the order of their nodes.
    pub fn visible_files(&self) -> (files: Vec<RedoxFileIdentity>)
        ensures
            saved_files(self@, files@),
    {
        let visible = self.files.visible();
        let n: usize = visible.len();
        let mut files: Vec<RedoxFileIdentity> = Vec::new();
        let mut i: usize = 0;
        while i < n
            invariant
                i <= n,
                n == visible.keys().len(),
                visible@ == self@.files,
                visible.listed(),
                files@.len() == i,
                forall|j: int| 0 <= j < i ==> #[trigger] files@[j] == (RedoxFileIdentity { node: visible.keys()[j], object: self@.files[visible.keys()[j]] }),
            decreases n - i,
        {
            files.push(RedoxFileIdentity { node: *visible.key_at(i), object: *visible.value_at(i) });
            i += 1;
        }
        proof {
            assert(files@.map_values(|f: RedoxFileIdentity| f.node) =~= visible.keys());
            assert forall|node: NodeId| #[trigger] self@.files.contains_key(node) <==> files@.map_values(|f: RedoxFileIdentity| f.node).contains(node) by {
                assert(visible@.contains_key(node) <==> visible.keys().contains(node));
            }
        }
        files
    }

    /// The versions of the pages that the branch sees, in the order of their nodes and numbers.
    pub fn visible_pages(&self) -> (pages: Vec<RedoxPageVersion>)
        ensures
            saved_pages(self@, pages@),
    {
        let visible = self.pages.visible();
        let n: usize = visible.len();
        let mut pages: Vec<RedoxPageVersion> = Vec::new();
        let mut i: usize = 0;
        while i < n
            invariant
                i <= n,
                n == visible.keys().len(),
                visible@ == self@.pages,
                visible.listed(),
                pages@.len() == i,
                forall|j: int| 0 <= j < i ==> #[trigger] pages@[j] == (RedoxPageVersion {
                    node: visible.keys()[j].0,
                    page: visible.keys()[j].1,
                    version: self@.pages[visible.keys()[j]],
                }),
            decreases n - i,
        {
            let key: PageKey = *visible.key_at(i);
            pages.push(RedoxPageVersion { node: key.0, page: key.1, version: *visible.value_at(i) });
            i += 1;
        }
        proof {
            assert(pages@.map_values(|p: RedoxPageVersion| (p.node, p.page)) =~= visible.keys());
            assert forall|k: PageKey| #[trigger] self@.pages.contains_key(k) <==> pages@.map_values(|p: RedoxPageVersion| (p.node, p.page)).contains(k) by {
                assert(visible@.contains_key(k) <==> visible.keys().contains(k));
            }
        }
        pages
    }

    /// A branch with the given files and pages.
    pub fn restore(files: &Vec<RedoxFileIdentity>, pages: &Vec<RedoxPageVersion>) -> (branch: Self)
        ensures
            branch@ == (IdentityView {
                files: files_of(files@),
                pages: pages_of(pages@),
            }),
    {
        let mut held: OrdMap<NodeId, u64> = OrdMap::new();
        let n: usize = files.len();
        let mut i: usize = 0;
        assert(held@ =~= files_of(files@.take(0)));
        while i < n
            invariant
                i <= n,
                n == files@.len(),
                held@ == files_of(files@.take(i as int)),
            decreases n - i,
        {
            assert(files@.take(i + 1).drop_last() =~= files@.take(i as int));
            held.insert(files[i].node, files[i].object);
            i += 1;
        }
        assert(files@.take(n as int) =~= files@);
        let mut versions: OrdMap<PageKey, u64> = OrdMap::new();
        let m: usize = pages.len();
        i = 0;
        assert(versions@ =~= pages_of(pages@.take(0)));
        while i < m
            invariant
                i <= m,
                m == pages@.len(),
                versions@ == pages_of(pages@.take(i as int)),
            decreases m - i,
        {
            assert(pages@.take(i + 1).drop_last() =~= pages@.take(i as int));
            versions.insert((pages[i].node, pages[i].page), pages[i].version);
            i += 1;
        }
        assert(pages@.take(m as int) =~= pages@);
        IdentityBranch { files: Layered::with_changes(held), pages: Layered::with_changes(versions) }
    }
}

/// Whether `files` are, in order, the files of a branch.
pub open spec fn saved_files(v: IdentityView, files: Seq<RedoxFileIdentity>) -> bool {
    let nodes = files.map_values(|f: RedoxFileIdentity| f.node);
    &&& ascending::<NodeId>(nodes)
    &&& forall|node: NodeId| #[trigger] v.files.contains_key(node) <==> nodes.contains(node)
    &&& forall|i: int| 0 <= i < files.len() ==> (#[trigger] files[i]).object == v.files[files[i].node]
}

/// Whether `pages` are, in order, the page versions of a branch.
pub open spec fn saved_pages(v: IdentityView, pages: Seq<RedoxPageVersion>) -> bool {
    let keys = pages.map_values(|p: RedoxPageVersion| (p.node, p.page));
    &&& ascending::<PageKey>(keys)
    &&& forall|k: PageKey| #[trigger] v.pages.contains_key(k) <==> keys.contains(k)
    &&& forall|i: int| 0 <= i < pages.len() ==> (#[trigger] pages[i]).version == v.pages[(pages[i].node, pages[i].page)]
}

/// The objects that a list of files gives to nodes; a later entry for a node counts.
pub open spec fn files_of(files: Seq<RedoxFileIdentity>) -> Map<NodeId, u64>
    decreases files.len(),
{
    if files.len() == 0 {
        Map::empty()
    } else {
        files_of(files.drop_last()).insert(files.last().node, files.last().object)
    }
}

/// The versions that a list gives to pages; a later entry for a page counts.
pub open spec fn pages_of(pages: Seq<RedoxPageVersion>) -> Map<PageKey, u64>
    decreases pages.len(),
{
    if pages.len() == 0 {
        Map::empty()
    } else {
        pages_of(pages.drop_last()).insert((pages.last().node, pages.last().page), pages.last().version)
    }
}

/// A saved branch is restored with the files and page versions that it had.
pub proof fn restored_identities_are_the_saved_ones(v: IdentityView, files: Seq<RedoxFileIdentity>, pages: Seq<RedoxPageVersion>)
    requires
        saved_files(v, files),
        saved_pages(v, pages),
    ensures
        files_of(files) == v.files,
        pages_of(pages) == v.pages,
{
    lemma_files_of(files);
    lemma_pages_of(pages);
    let nodes = files.map_values(|f: RedoxFileIdentity| f.node);
    let keys = pages.map_values(|p: RedoxPageVersion| (p.node, p.page));
    assert forall|node: NodeId| files_of(files).contains_key(node) <==> v.files.contains_key(node) by {
        if nodes.contains(node) {
            let i = choose|i: int| 0 <= i < nodes.len() && nodes[i] == node;
            assert(files[i].node == node);
        }
        if files_of(files).contains_key(node) {
            let i = choose|i: int| 0 <= i < files.len() && (#[trigger] files[i]).node == node && files[i].object == files_of(files)[node];
            assert(nodes[i] == node);
        }
    }
    assert(files_of(files) =~= v.files);
    assert forall|k: PageKey| pages_of(pages).contains_key(k) <==> v.pages.contains_key(k) by {
        if keys.contains(k) {
            let i = choose|i: int| 0 <= i < keys.len() && keys[i] == k;
            assert((pages[i].node, pages[i].page) == k);
        }
        if pages_of(pages).contains_key(k) {
            let i = choose|i: int|
                0 <= i < pages.len() && ((#[trigger] pages[i]).node, pages[i].page) == k && pages[i].version == pages_of(pages)[k];
            assert(keys[i] == k);
        }
    }
    assert(pages_of(pages) =~= v.pages);
}

pub proof fn lemma_files_of(files: Seq<RedoxFileIdentity>)
    ensures
        forall|i: int| 0 <= i < files.len() ==> files_of(files).contains_key((#[trigger] files[i]).node),
        forall|node: NodeId| #[trigger]
            files_of(files).contains_key(node) ==> exists|i: int|
                0 <= i < files.len() && (#[trigger] files[i]).node == node && files[i].object == files_of(files)[node],
    decreases files.len(),
{
    if files.len() > 0 {
        let rest = files.drop_last();
        lemma_files_of(rest);
        assert forall|i: int| 0 <= i < files.len() implies files_of(files).contains_key((#[trigger] files[i]).node) by {
            if i < rest.len() {
                assert(rest[i] == files[i]);
            }
        }
        assert forall|node: NodeId| #[trigger] files_of(files).contains_key(node) implies exists|i: int|
            0 <= i < files.len() && (#[trigger] files[i]).node == node && files[i].object == files_of(files)[node] by {
            if node == files.last().node {
                assert(files[files.len() - 1].node == node);
            } else {
                assert(files_of(rest).contains_key(node));
                let i = choose|i: int| 0 <= i < rest.len() && (#[trigger] rest[i]).node == node && rest[i].object == files_of(rest)[node];
                assert(files[i] == rest[i]);
            }
        }
    }
}

pub proof fn lemma_pages_of(pages: Seq<RedoxPageVersion>)
    ensures
        forall|i: int| 0 <= i < pages.len() ==> pages_of(pages).contains_key(((#[trigger] pages[i]).node, pages[i].page)),
        forall|k: PageKey| #[trigger]
            pages_of(pages).contains_key(k) ==> exists|i: int|
                0 <= i < pages.len() && ((#[trigger] pages[i]).node, pages[i].page) == k && pages[i].version == pages_of(pages)[k],
    decreases pages.len(),
{
    if pages.len() > 0 {
        let rest = pages.drop_last();
        lemma_pages_of(rest);
        assert forall|i: int| 0 <= i < pages.len() implies pages_of(pages).contains_key(((#[trigger] pages[i]).node, pages[i].page)) by {
            if i < rest.len() {
                assert(rest[i] == pages[i]);
            }
        }
        assert forall|k: PageKey| #[trigger] pages_of(pages).contains_key(k) implies exists|i: int|
            0 <= i < pages.len() && ((#[trigger] pages[i]).node, pages[i].page) == k && pages[i].version == pages_of(pages)[k] by {
            if k == (pages.last().node, pages.last().page) {
                assert(pages[pages.len() - 1] == pages.last());
            } else {
                assert(pages_of(rest).contains_key(k));
                let i = choose|i: int|
                    0 <= i < rest.len() && ((#[trigger] rest[i]).node, rest[i].page) == k && rest[i].version == pages_of(rest)[k];
                assert(pages[i] == rest[i]);
            }
        }
    }
}

/// A page that is about to be written gets an identity that no branch has for any page, and no
/// other page of the branch changes identity.
pub proof fn prepared_identity_is_new(v: IdentityView, other: IdentityView, source: IdentitySource, node: NodeId, page: u64, n: NodeId, p: u64)
    requires
        v.drawn_from(source),
        other.drawn_from(source),
        source.next_version < u64::MAX,
    ensures
        ({
            let w = v.prepared(node, page, source.next_version);
            &&& w.identity(node, page) is Some ==> w.identity(node, page) != other.identity(n, p) && w.identity(node, page) != v.identity(n, p)
            &&& !(n == node && p == page) ==> w.identity(n, p) == v.identity(n, p)
            &&& w.drawn_from(IdentitySource { next_version: (source.next_version + 1) as u64, ..source })
            &&& w.files == v.files
        }),
{
}

/// The pages of two files have no identity in common.
pub proof fn files_share_no_identity(v: IdentityView, a: NodeId, b: NodeId, p: u64, q: u64)
    requires
        v.files.contains_key(a),
        v.files.contains_key(b),
        v.files[a] != v.files[b],
    ensures
        v.identity(a, p) != v.identity(b, q),
{
}

impl IdentityView {
    /// Whether each object is behind the node that it was made for; `names` has that node for all
    /// objects that were drawn from the source.
    pub open spec fn named_by(self, names: Map<u64, NodeId>, source: IdentitySource) -> bool {
        &&& forall|object: u64| #[trigger] names.contains_key(object) ==> object < source.next_object
        &&& forall|node: NodeId| #[trigger]
            self.files.contains_key(node) ==> names.contains_key(self.files[node]) && names[self.files[node]] == node
    }
}

/// A new file's object is made for its node, and all branches keep theirs: so an object is behind
/// the same node wherever it is found.
pub proof fn objects_keep_their_nodes(v: IdentityView, other: IdentityView, names: Map<u64, NodeId>, source: IdentitySource, node: NodeId)
    requires
        v.named_by(names, source),
        other.named_by(names, source),
        source.next_object < u64::MAX,
    ensures
        ({
            let more = names.insert(source.next_object, node);
            let now = IdentitySource { next_object: (source.next_object + 1) as u64, ..source };
            &&& (IdentityView { files: v.files.insert(node, source.next_object), ..v }).named_by(more, now)
            &&& other.named_by(more, now)
        }),
{
}

/// An identity is one of a single page, in whichever branch it is found.
pub proof fn identities_name_one_page(
    v: IdentityView,
    other: IdentityView,
    names: Map<u64, NodeId>,
    source: IdentitySource,
    node: NodeId,
    page: u64,
    n: NodeId,
    p: u64,
)
    requires
        v.named_by(names, source),
        other.named_by(names, source),
        v.identity(node, page) is Some,
        v.identity(node, page) == other.identity(n, p),
    ensures
        n == node && p == page,
{
}

/// A recorded write gives each page in which one of its bytes lies an identity that no branch has for
/// any page, and leaves all other pages with the identities that they had.
pub proof fn written_pages_get_new_identities(
    v: IdentityView,
    other: IdentityView,
    source: IdentitySource,
    node: NodeId,
    offset: u64,
    len: int,
    n: NodeId,
    p: u64,
)
    requires
        v.drawn_from(source),
        other.drawn_from(source),
        v.files.contains_key(node),
        0 <= len,
        offset + len <= u64::MAX,
        source.next_version + pages_in_write(offset as int, len) <= u64::MAX,
    ensures
        ({
            let w = v.written(node, offset as int, len, source.next_version as int);
            let now = IdentitySource { next_version: (source.next_version + pages_in_write(offset as int, len)) as u64, ..source };
            &&& w.files == v.files
            &&& w.drawn_from(now)
            &&& other.drawn_from(now)
            &&& forall|address: int| #![trigger w.identity(node, (address / 4096) as u64)]
                offset <= address < offset + len ==> {
                    &&& w.identity(node, (address / 4096) as u64) is Some
                    &&& w.identity(node, (address / 4096) as u64) != v.identity(n, p)
                    &&& w.identity(node, (address / 4096) as u64) != other.identity(n, p)
                }
            &&& (forall|address: int| #![trigger address / 4096] offset <= address < offset + len ==> !(n == node && p == address / 4096)) ==> w.identity(n, p)
                == v.identity(n, p)
        }),
{
    let next = source.next_version as int;
    let w = v.written(node, offset as int, len, next);
    let now = IdentitySource { next_version: (source.next_version + pages_in_write(offset as int, len)) as u64, ..source };
    if len > 0 {
        assert((offset + len - 1) / 4096 >= offset as int / 4096);
    }
    assert forall|k: PageKey| #[trigger] w.pages.contains_key(k) implies w.pages[k] < now.next_version by {
        if in_write(node, offset as int, len, k) {
        } else {
            assert(v.pages.contains_key(k));
        }
    }
    assert forall|address: int| #![trigger w.identity(node, (address / 4096) as u64)] offset <= address < offset + len implies {
        &&& w.identity(node, (address / 4096) as u64) is Some
        &&& w.identity(node, (address / 4096) as u64) != v.identity(n, p)
        &&& w.identity(node, (address / 4096) as u64) != other.identity(n, p)
    } by {
        let k: PageKey = (node, (address / 4096) as u64);
        assert(0 <= address / 4096 <= u64::MAX);
        assert(in_write(node, offset as int, len, k));
        assert(w.pages.contains_key(k));
        assert(w.pages[k] >= next);
        if v.pages.contains_key((n, p)) {
            assert(v.pages[(n, p)] < next);
        }
        if other.pages.contains_key((n, p)) {
            assert(other.pages[(n, p)] < next);
        }
    }
    if forall|address: int| #![trigger address / 4096] offset <= address < offset + len ==> !(n == node && p == address / 4096) {
        if in_write(node, offset as int, len, (n, p)) {
            let address = if offset as int / 4096 == p {
                offset as int
            } else {
                p * 4096
            };
            assert(offset <= address < offset + len && address / 4096 == p);
        }
        assert(w.pages.contains_key((n, p)) <==> v.pages.contains_key((n, p)));
    }
}

/// A write takes as many new versions as there are pages in which one of its bytes lies.
pub proof fn a_version_for_each_written_page(offset: int, len: int)
    requires
        0 <= offset,
        0 <= len,
    ensures
        len == 0 ==> pages_in_write(offset, len) == 0,
        len > 0 ==> {
            &&& pages_in_write(offset, len) >= 1
            &&& offset / 4096 * 4096 + 4096 * pages_in_write(offset, len) >= offset + len
            &&& offset / 4096 * 4096 + 4096 * (pages_in_write(offset, len) - 1) < offset + len
        },
{
}

/// Two pages of a branch have the same identity only where they are the same page of one object, and
/// a page that is written anew has another identity than before.
pub proof fn identities_tell_pages_apart(v: IdentityView, node: NodeId, page: u64, n: NodeId, p: u64)
    requires
        v.identity(node, page) is Some,
    ensures
        v.identity(node, page) == v.identity(n, p) ==> p == page && v.files.contains_key(n) && v.files[n] == v.files[node],
        v.files.contains_key(node),
        v.identity(n, p) is Some <==> v.files.contains_key(n),
{
}

/// The pages of a write get their versions in order: the first the next one, each further page one more.
pub proof fn versions_follow_the_pages(v: IdentityView, node: NodeId, offset: int, len: int, next: u64, page: u64)
    requires
        0 <= offset,
        0 < len,
        offset + len <= u64::MAX,
        next + pages_in_write(offset, len) <= u64::MAX,
        page * 4096 < offset + len,
        offset < page * 4096 + 4096,
    ensures
        ({
            let w = v.written(node, offset, len, next as int);
            &&& w.pages.contains_key((node, page))
            &&& page * 4096 <= offset ==> w.pages[(node, page)] == next
            &&& page * 4096 > offset ==> w.pages.contains_key((node, (page - 1) as u64)) && w.pages[(node, page)] == w.pages[(node, (page - 1) as u64)] + 1
        }),
{
}

} // verus!
