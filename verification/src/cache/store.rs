//! What the page caches need of the filesystem below them.

use vstd::prelude::*;
use vstd::string::StringExecFns;

use crate::io::IoError;
use crate::ordered::Key;
use crate::text::append_decimal;
#[allow(unused_imports)]
use crate::text::decimal;

verus! {

pub const PAGE_SIZE: u64 = 4096;

pub type NodeId = u32;

/// Access accumulated for a cached file page.
#[derive(Clone, Copy, Debug, Eq, PartialEq, Structural)]
pub struct MapFlags {
    pub readable: bool,
    pub writable: bool,
}

impl MapFlags {
    pub open spec fn union_spec(self, other: MapFlags) -> MapFlags {
        MapFlags { readable: self.readable || other.readable, writable: self.writable || other.writable }
    }

    pub fn empty() -> (flags: MapFlags)
        ensures
            flags == (MapFlags { readable: false, writable: false }),
    {
        MapFlags { readable: false, writable: false }
    }

    pub fn read() -> (flags: MapFlags)
        ensures
            flags == (MapFlags { readable: true, writable: false }),
    {
        MapFlags { readable: true, writable: false }
    }

    pub fn write() -> (flags: MapFlags)
        ensures
            flags == (MapFlags { readable: false, writable: true }),
    {
        MapFlags { readable: false, writable: true }
    }

    pub fn read_write() -> (flags: MapFlags)
        ensures
            flags == (MapFlags { readable: true, writable: true }),
    {
        MapFlags { readable: true, writable: true }
    }

    pub fn union(self, other: MapFlags) -> (flags: MapFlags)
        ensures
            flags == self.union_spec(other),
    {
        MapFlags { readable: self.readable || other.readable, writable: self.writable || other.writable }
    }

    /// Whether all of the other flags are set here.
    pub fn contains(self, other: MapFlags) -> (b: bool)
        ensures
            b == ((other.readable ==> self.readable) && (other.writable ==> self.writable)),
    {
        (!other.readable || self.readable) && (!other.writable || self.writable)
    }

    /// Whether any of the other flags is set here.
    pub fn intersects(self, other: MapFlags) -> (b: bool)
        ensures
            b == ((other.readable && self.readable) || (other.writable && self.writable)),
    {
        (other.readable && self.readable) || (other.writable && self.writable)
    }
}

/// A file's contents once `data` are written at `offset`; a gap before them reads as zero.
pub open spec fn file_written(contents: Seq<u8>, offset: int, data: Seq<u8>) -> Seq<u8> {
    if data.len() == 0 {
        contents
    } else {
        Seq::new(
            if offset + data.len() > contents.len() {
                (offset + data.len()) as nat
            } else {
                contents.len()
            },
            |i: int|
                if offset <= i < offset + data.len() {
                    data[i - offset]
                } else if i < contents.len() {
                    contents[i]
                } else {
                    0u8
                },
        )
    }
}

/// How many of `len` bytes can be read at `offset`.
pub open spec fn readable(contents: Seq<u8>, offset: int, len: int) -> int {
    if offset >= contents.len() {
        0
    } else if contents.len() - offset < len {
        contents.len() - offset
    } else {
        len
    }
}

/// The page of a file that begins at `offset`, with zeros behind the file's end.
pub open spec fn page_of(contents: Seq<u8>, offset: int) -> Seq<u8> {
    Seq::new(
        4096,
        |i: int|
            if offset + i < contents.len() {
                contents[offset + i]
            } else {
                0u8
            },
    )
}

/// The filesystem operations hidden behind the shared page cache.
pub trait NodeStore {
    /// The contents of the nodes.
    closed spec fn nodes(&self) -> Map<NodeId, Seq<u8>> {
        Map::empty()
    }

    /// A number that stands for all page identities that the store gives out; reading and
    /// writing nodes leave them as they are.
    closed spec fn identities(&self) -> int {
        0
    }

    fn len(&mut self, node: NodeId) -> (r: Result<u64, IoError>)
        ensures
            final(self).nodes() == old(self).nodes(),
            final(self).identities() == old(self).identities(),
            r matches Ok(len) ==> old(self).nodes().contains_key(node) && len == old(self).nodes()[node].len(),
    ;

    /// Reads as much of `buf` as the node holds at `offset`, and no less: a cache takes what is
    /// missing from a page for zeros behind the end of the file.
    fn read_node(&mut self, node: NodeId, offset: u64, buf: &mut [u8]) -> (r: Result<usize, IoError>)
        ensures
            final(self).nodes() == old(self).nodes(),
            final(self).identities() == old(self).identities(),
            final(buf)@.len() == old(buf)@.len(),
            r matches Ok(count) ==> {
                let contents = old(self).nodes()[node];
                &&& old(self).nodes().contains_key(node)
                &&& count == readable(contents, offset as int, old(buf)@.len() as int)
                &&& final(buf)@.take(count as int) == contents.subrange(offset as int, offset + count)
            },
    ;

    /// Writes the first bytes of `buf` at `offset` and says how many they were.
    fn write_node(&mut self, node: NodeId, offset: u64, buf: &[u8]) -> (r: Result<usize, IoError>)
        ensures
            final(self).identities() == old(self).identities(),
            forall|other: NodeId| other != node ==> (#[trigger] final(self).nodes().contains_key(other) <==> old(self).nodes().contains_key(other)),
            forall|other: NodeId| other != node && #[trigger] final(self).nodes().contains_key(other) ==> final(self).nodes()[other] == old(self).nodes()[other],
            r matches Ok(count) ==> {
                &&& count <= buf@.len()
                &&& old(self).nodes().contains_key(node)
                &&& final(self).nodes() == old(self).nodes().insert(
                    node,
                    file_written(old(self).nodes()[node], offset as int, buf@.take(count as int)),
                )
            },
    ;

    /// Called before a node's first use.
    fn on_open_node(&mut self, node: NodeId) -> (r: Result<(), IoError>)
        ensures
            final(self).nodes() == old(self).nodes(),
            final(self).identities() == old(self).identities(),
    {
        Ok(())
    }

    /// Called after a node's last use; the store may then let go of the node.
    fn on_close_node(&mut self, node: NodeId) -> (r: Result<(), IoError>)
        ensures
            final(self).nodes() == old(self).nodes() || final(self).nodes() == old(self).nodes().remove(node),
            final(self).identities() == old(self).identities(),
    {
        Ok(())
    }
}

/// A store of which a branch with the same contents can be made, and whose pages have
/// identities that change when a branch is about to write to them.
pub trait ForkableNodeStore: NodeStore + Sized {
    type PageIdentity: Key;

    /// The identity that a page is given among those that `identities` stands for.
    closed spec fn given_identity(identities: int, node: NodeId, page: u64) -> Option<<Self::PageIdentity as View>::V> {
        None
    }

    /// The page that an identity is of. A store makes an identity for one page of one node and never
    /// gives it to another, so the identity alone names the page, in whichever branch it is found.
    closed spec fn named_page(identity: <Self::PageIdentity as View>::V) -> (NodeId, u64) {
        (0, 0)
    }

    fn page_identity(&mut self, node: NodeId, offset: u64) -> (r: Result<Self::PageIdentity, IoError>)
        ensures
            final(self).nodes() == old(self).nodes(),
            final(self).identities() == old(self).identities(),
            match r {
                Ok(id) => {
                    &&& Self::given_identity(old(self).identities(), node, offset / 4096) == Some(id@)
                    &&& Self::named_page(id@) == (node, offset / 4096)
                },
                Err(_) => Self::given_identity(old(self).identities(), node, offset / 4096) is None,
            },
    ;

    /// Gives the page an identity of this branch's own. A store whose branches are to be kept apart
    /// takes one that no other branch has; what other branches have is not known here, so no clause
    /// says so.
    fn prepare_page_write(&mut self, node: NodeId, offset: u64) -> (r: Result<Self::PageIdentity, IoError>)
        ensures
            final(self).nodes() == old(self).nodes(),
            forall|n: NodeId, p: u64|
                !(n == node && p == offset / 4096) ==> #[trigger] Self::given_identity(final(self).identities(), n, p) == Self::given_identity(
                    old(self).identities(),
                    n,
                    p,
                ),
            match r {
                Ok(id) => {
                    &&& Self::given_identity(final(self).identities(), node, offset / 4096) == Some(id@)
                    &&& Self::named_page(id@) == (node, offset / 4096)
                },
                Err(_) => final(self).identities() == old(self).identities(),
            },
    ;

    /// Makes a second branch that shows what this one shows.
    fn fork_store(&mut self) -> (r: Result<Self, IoError>)
        ensures
            final(self).nodes() == old(self).nodes(),
            final(self).identities() == old(self).identities(),
            r matches Ok(child) ==> {
                &&& child.nodes() == old(self).nodes()
                &&& child.identities() == old(self).identities()
            },
    ;
}

/// Whether the store shows the given contents and gives out the given identities.
pub open spec fn shows_these<S: NodeStore>(store: S, nodes: Map<NodeId, Seq<u8>>, identities: int) -> bool {
    store.nodes() == nodes && store.identities() == identities
}

/// Whether the error is one with which the store answers when it is asked for the length of a node.
pub open spec fn len_fails<S: NodeStore>(nodes: Map<NodeId, Seq<u8>>, identities: int, node: NodeId, error: IoError) -> bool {
    exists|store: &mut S| shows_these(*store, nodes, identities) && #[trigger] call_ensures(S::len, (store, node), Err::<u64, IoError>(error))
}

/// Whether the error is one with which the store answers when `len` bytes of a node are to be read.
pub open spec fn read_fails<S: NodeStore>(
    nodes: Map<NodeId, Seq<u8>>,
    identities: int,
    node: NodeId,
    offset: u64,
    len: int,
    error: IoError,
) -> bool {
    exists|store: &mut S, buf: &mut [u8]|
        {
            &&& shows_these(*store, nodes, identities)
            &&& (*buf)@.len() == len
            &&& #[trigger] call_ensures(S::read_node, (store, node, offset, buf), Err::<usize, IoError>(error))
        }
}

/// Whether the store answers so when bytes are to be written to a node.
pub open spec fn write_answered<S: NodeStore>(
    nodes: Map<NodeId, Seq<u8>>,
    identities: int,
    node: NodeId,
    offset: u64,
    data: Seq<u8>,
    done: Result<usize, IoError>,
) -> bool {
    exists|store: &mut S, buf: &[u8]|
        {
            &&& shows_these(*store, nodes, identities)
            &&& buf@ == data
            &&& #[trigger] call_ensures(S::write_node, (store, node, offset, buf), done)
        }
}

/// Whether the error is one with which writing bytes to a node ends: the store's own, or that of a
/// store that wrote less than it was given.
pub open spec fn store_fails<S: NodeStore>(
    nodes: Map<NodeId, Seq<u8>>,
    identities: int,
    node: NodeId,
    offset: u64,
    data: Seq<u8>,
    error: IoError,
) -> bool {
    ||| write_answered::<S>(nodes, identities, node, offset, data, Err(error))
    ||| error == IoError::WriteZero("short filesystem write") && exists|written: usize|
        written != data.len() && #[trigger] write_answered::<S>(nodes, identities, node, offset, data, Ok(written))
}

/// The bytes of a page that lie within a file of `len` bytes.
pub open spec fn synced_bytes(page: Seq<u8>, offset: int, len: int) -> Seq<u8> {
    page.take(if len - offset < 4096 {
        len - offset
    } else {
        4096
    })
}

/// What comes of writing `count` bytes of which the store wrote `written`.
pub fn fully_written(written: usize, count: usize) -> (r: Result<(), IoError>)
    ensures
        r == (if written == count {
            Ok::<(), IoError>(())
        } else {
            Err::<(), IoError>(IoError::WriteZero("short filesystem write"))
        }),
{
    if written == count {
        Ok(())
    } else {
        Err(IoError::WriteZero("short filesystem write"))
    }
}

/// How many of `len` bytes can be read at `offset` of a file of the given length.
pub fn readable_len(file_len: u64, offset: u64, len: usize) -> (count: usize)
    ensures
        count == (if offset >= file_len {
            0
        } else if file_len - offset < len {
            file_len - offset
        } else {
            len as int
        }),
{
    if offset >= file_len {
        return 0;
    }
    let left: u64 = file_len - offset;
    if left < len as u64 {
        left as usize
    } else {
        len
    }
}

/// Whether the error is one with which the store answers when it is asked for a page's identity.
pub open spec fn identity_fails<S: ForkableNodeStore>(
    nodes: Map<NodeId, Seq<u8>>,
    identities: int,
    node: NodeId,
    offset: u64,
    error: IoError,
) -> bool {
    exists|store: &mut S|
        shows_these(*store, nodes, identities) && #[trigger] call_ensures(
            S::page_identity,
            (store, node, offset),
            Err::<S::PageIdentity, IoError>(error),
        )
}

/// Whether the error is one with which the store answers when it is to give a page a new identity.
pub open spec fn prepare_fails<S: ForkableNodeStore>(
    nodes: Map<NodeId, Seq<u8>>,
    identities: int,
    node: NodeId,
    offset: u64,
    error: IoError,
) -> bool {
    exists|store: &mut S|
        shows_these(*store, nodes, identities) && #[trigger] call_ensures(
            S::prepare_page_write,
            (store, node, offset),
            Err::<S::PageIdentity, IoError>(error),
        )
}

/// Whether the error is one with which the store answers when it is to be forked.
pub open spec fn fork_fails<S: ForkableNodeStore>(nodes: Map<NodeId, Seq<u8>>, identities: int, error: IoError) -> bool {
    exists|store: &mut S| shows_these(*store, nodes, identities) && #[trigger] call_ensures(S::fork_store, (store,), Err::<S, IoError>(error))
}

/// Whether the error is one with which the store answers when a node comes into use.
pub open spec fn opening_fails<S: NodeStore>(nodes: Map<NodeId, Seq<u8>>, identities: int, node: NodeId, error: IoError) -> bool {
    exists|store: &mut S|
        shows_these(*store, nodes, identities) && #[trigger] call_ensures(S::on_open_node, (store, node), Err::<(), IoError>(error))
}

/// Whether the error is one with which the store answers when a node is no longer in use.
pub open spec fn closing_fails<S: NodeStore>(nodes: Map<NodeId, Seq<u8>>, identities: int, node: NodeId, error: IoError) -> bool {
    exists|store: &mut S|
        shows_these(*store, nodes, identities) && #[trigger] call_ensures(S::on_close_node, (store, node), Err::<(), IoError>(error))
}

/// Whether the store answers everything that is asked of a node that is there, and writes all that it
/// is given.
pub open spec fn serves<S: NodeStore>(node: NodeId) -> bool {
    &&& forall|nodes: Map<NodeId, Seq<u8>>, identities: int, error: IoError|
        nodes.contains_key(node) ==> !#[trigger] len_fails::<S>(nodes, identities, node, error)
    &&& forall|nodes: Map<NodeId, Seq<u8>>, identities: int, offset: u64, len: int, error: IoError|
        nodes.contains_key(node) ==> !#[trigger] read_fails::<S>(nodes, identities, node, offset, len, error)
    &&& forall|nodes: Map<NodeId, Seq<u8>>, identities: int, offset: u64, data: Seq<u8>, error: IoError|
        nodes.contains_key(node) ==> !#[trigger] store_fails::<S>(nodes, identities, node, offset, data, error)
}

/// Whether the store also gives identities to the pages of a node that is there.
pub open spec fn serves_pages<S: ForkableNodeStore>(node: NodeId) -> bool {
    &&& serves::<S>(node)
    &&& forall|nodes: Map<NodeId, Seq<u8>>, identities: int, offset: u64, error: IoError|
        nodes.contains_key(node) ==> !#[trigger] identity_fails::<S>(nodes, identities, node, offset, error)
    &&& forall|nodes: Map<NodeId, Seq<u8>>, identities: int, offset: u64, error: IoError|
        nodes.contains_key(node) ==> !#[trigger] prepare_fails::<S>(nodes, identities, node, offset, error)
}

/// What comes of an operation that ends with the store's answer.
pub open spec fn answered(done: Result<(), IoError>) -> Result<(), CacheError> {
    match done {
        Ok(()) => Ok(()),
        Err(error) => Err(CacheError::Io(error)),
    }
}

/// The identity of a page among those that `identities` stands for: the one that it is given, if
/// that is an identity of this page.
pub open spec fn identity_of<S: ForkableNodeStore>(identities: int, node: NodeId, page: u64) -> Option<
    <S::PageIdentity as View>::V,
> {
    match S::given_identity(identities, node, page) {
        Some(identity) => if S::named_page(identity) == (node, page) { Some(identity) } else { None },
        None => None,
    }
}

/// Failure of a page cache operation.
#[derive(Debug)]
pub enum CacheError {
    Io(IoError),
    InvalidMapping(&'static str),
    NodeNotOpen(NodeId),
    BranchNotFound(u64),
    StaleMapping,
    ActiveMappings,
    PageBusy,
}

/// The next multiple of the page size at or above `value`, if there is one.
pub fn next_page_boundary(value: u64) -> (r: Option<u64>)
    ensures
        match r {
            Some(next) => next % 4096 == 0 && value <= next < value + 4096,
            None => value > u64::MAX - 4095,
        },
{
    let rest: u64 = value % 4096;
    if rest == 0 {
        Some(value)
    } else {
        value.checked_add(4096 - rest)
    }
}

impl CacheError {
    /// The error in words; `io` is the text of the storage failure, where that is what it is.
    pub fn message(&self, io: &str) -> (text: String)
        ensures
            text@ == (match *self {
                CacheError::Io(_) => io@,
                CacheError::InvalidMapping(reason) => reason@,
                CacheError::NodeNotOpen(node) => "node "@ + decimal(node as nat) + " is not open"@,
                CacheError::BranchNotFound(branch) => "branch "@ + decimal(branch as nat) + " does not exist"@,
                CacheError::StaleMapping => "mapping no longer belongs to this cache"@,
                CacheError::ActiveMappings => "cache still has active DAX mappings"@,
                CacheError::PageBusy => "DAX page must be unmapped before copy-on-write"@,
            }),
    {
        match self {
            CacheError::Io(_) => io.to_owned(),
            CacheError::InvalidMapping(reason) => (*reason).to_owned(),
            CacheError::NodeNotOpen(node) => {
                let mut text: String = "node ".to_owned();
                append_decimal(&mut text, *node as u64);
                text.append(" is not open");
                text
            },
            CacheError::BranchNotFound(branch) => {
                let mut text: String = "branch ".to_owned();
                append_decimal(&mut text, *branch);
                text.append(" does not exist");
                text
            },
            CacheError::StaleMapping => "mapping no longer belongs to this cache".to_owned(),
            CacheError::ActiveMappings => "cache still has active DAX mappings".to_owned(),
            CacheError::PageBusy => "DAX page must be unmapped before copy-on-write".to_owned(),
        }
    }
}

} // verus!
