//! The memory and the filesystem branches of the virtual machines of a fork forest.

use vstd::prelude::*;

#[allow(unused_imports)]
use crate::bytes::zero_bytes;
#[allow(unused_imports)]
use crate::cache::files::{file_read_fails, file_write_fails, page_floor, pages_reached};
use crate::cache::shared::{CacheBranchId, SharedPageCache};
#[allow(unused_imports)]
use crate::cache::shared::{
    branch_pages, branch_removed, cache_forked, fresh_branch, open_count, with_branch, BranchView,
    CacheView, Identity,
};
use crate::cache::store::{CacheError, ForkableNodeStore, NodeId};
#[allow(unused_imports)]
use crate::cache::store::{closing_fails, fork_fails, opening_fails, readable};
#[allow(unused_imports)]
use crate::cache::visible::{pages_in, seen_bytes, written_through};
#[allow(unused_imports)]
use crate::census::{held, held_twice};
use crate::fork::forest::{Error, ForkForest, PageAccounting, SpaceAccounting, VmId};
#[allow(unused_imports)]
use crate::fork::forest::{memory_name, ForestView, Space};
use crate::io::IoError;
use crate::ordered::OrdMap;
#[allow(unused_imports)]
use crate::ordered::{ascending, Key};

verus! {

/// Where a VM's files are: the cache of its lineage and its branch there.
struct Seat {
    cache: u64,
    branch: CacheBranchId,
}

/// Where a VM's files are.
#[verifier::ext_equal]
pub struct SeatView {
    pub cache: u64,
    pub branch: u64,
}

impl View for Seat {
    type V = SeatView;

    closed spec fn view(&self) -> SeatView {
        SeatView { cache: self.cache, branch: self.branch.number() }
    }
}

/// What a supervisor owns.
#[verifier::reject_recursive_types(I)]
#[verifier::ext_equal]
pub struct SupervisorView<I> {
    /// The VMs and their memory.
    pub forest: ForestView,
    pub seats: Map<VmId, SeatView>,
    pub filesystems: Map<u64, CacheView<I>>,
    pub next_cache: u64,
}

impl<I> SupervisorView<I> {
    pub open spec fn wf(self) -> bool {
        &&& self.forest.wf()
        &&& self.seats.dom() == self.forest.vms.dom()
        &&& forall|vm: VmId| #[trigger] self.seats.contains_key(vm) ==> self.filesystems.contains_key(self.seats[vm].cache)
            && self.filesystems[self.seats[vm].cache].branches.contains_key(self.seats[vm].branch)
        &&& forall|a: VmId, b: VmId| self.seats.contains_key(a) && self.seats.contains_key(b) && #[trigger] self.seats[a] == #[trigger] self.seats[b] ==> a == b
        &&& forall|c: u64| #[trigger] self.filesystems.contains_key(c) ==> self.filesystems[c].wf() && idle(self.filesystems[c]) && self.filesystems[c].id == c && c
            < self.next_cache
    }

    /// The filesystem cache of a VM.
    pub open spec fn cache_of(self, vm: VmId) -> CacheView<I> {
        self.filesystems[self.seats[vm].cache]
    }

    /// The same, with another value for the filesystem cache of a VM.
    pub open spec fn with_cache(self, vm: VmId, cache: CacheView<I>) -> Self {
        SupervisorView { filesystems: self.filesystems.insert(self.seats[vm].cache, cache), ..self }
    }
}

/// Whether no page of the cache is mapped.
pub open spec fn idle<I>(v: CacheView<I>) -> bool {
    forall|b: u64| #[trigger] v.branches.contains_key(b) ==> v.branches[b].active == Map::<u64, usize>::empty()
}

/// The cache once branch `b` has opened a node once more.
pub open spec fn node_opened<I>(v: CacheView<I>, b: u64, node: NodeId) -> CacheView<I> {
    let was = v.branches[b];
    with_branch(v, b, BranchView { open: was.open.insert(node, (open_count(was.open, node) + 1) as usize), ..was })
}

/// Whether `w` is the cache once branch `b` has closed a node, which then is open `count` times; a
/// store may let go of a node that is not open any more.
pub open spec fn node_closed<I>(v: CacheView<I>, w: CacheView<I>, b: u64, node: NodeId, count: usize) -> bool {
    let was = v.branches[b];
    let closed = BranchView { open: was.open.insert(node, count), ..was };
    ||| w == with_branch(v, b, closed)
    ||| count == 0 && w == with_branch(v, b, BranchView { nodes: was.nodes.remove(node), ..closed })
}

/// Owns the memory and the filesystem branches of a fork forest.
pub struct Supervisor<S: ForkableNodeStore> {
    forest: ForkForest,
    seats: OrdMap<VmId, Seat>,
    filesystems: OrdMap<u64, SharedPageCache<S>>,
    next_cache: u64,
}

impl<S: ForkableNodeStore> View for Supervisor<S> {
    type V = SupervisorView<Identity<S>>;

    closed spec fn view(&self) -> SupervisorView<Identity<S>> {
        SupervisorView {
            forest: self.forest@,
            seats: self.seats@.map_values(|seat: Seat| seat@),
            filesystems: self.filesystems@.map_values(|cache: SharedPageCache<S>| cache@),
            next_cache: self.next_cache,
        }
    }
}

impl<S: ForkableNodeStore> Supervisor<S> {
    pub open spec fn wf(self) -> bool {
        self@.wf()
    }

    pub fn new() -> (supervisor: Self)
        ensures
            supervisor.wf(),
            supervisor@ == (SupervisorView {
                forest: ForestView { next_vm: 1, next_page: 1, vms: Map::empty() },
                seats: Map::empty(),
                filesystems: Map::<u64, CacheView<Identity<S>>>::empty(),
                next_cache: 1,
            }),
    {
        let supervisor = Supervisor { forest: ForkForest::new(), seats: OrdMap::new(), filesystems: OrdMap::new(), next_cache: 1 };
        assert(supervisor@.seats =~= Map::<VmId, SeatView>::empty());
        assert(supervisor@.filesystems =~= Map::<u64, CacheView<Identity<S>>>::empty());
        assert(supervisor@.seats.dom() =~= supervisor@.forest.vms.dom());
        supervisor
    }

    fn take_cache(&mut self, cache: u64) -> (r: Option<SharedPageCache<S>>)
        ensures
            final(self).seats == old(self).seats,
            final(self).forest == old(self).forest,
            match r {
                Some(taken) => {
                    &&& old(self)@.filesystems.contains_key(cache)
                    &&& taken@ == old(self)@.filesystems[cache]
                    &&& final(self)@ == (SupervisorView { filesystems: old(self)@.filesystems.remove(cache), ..old(self)@ })
                },
                None => !old(self)@.filesystems.contains_key(cache) && final(self)@ == old(self)@,
            },
    {
        let ghost before = self@;
        let r = self.filesystems.remove(&cache);
        assert(self@.filesystems =~= before.filesystems.remove(cache));
        if r.is_none() {
            assert(self@.filesystems =~= before.filesystems);
        }
        r
    }

    fn put_cache(&mut self, number: u64, cache: SharedPageCache<S>)
        ensures
            final(self).seats == old(self).seats,
            final(self).forest == old(self).forest,
            final(self)@ == (SupervisorView { filesystems: old(self)@.filesystems.insert(number, cache@), ..old(self)@ }),
    {
        let ghost before = self@;
        self.filesystems.insert(number, cache);
        assert(self@.filesystems =~= before.filesystems.insert(number, cache@));
    }

    fn seat(&self, vm: VmId) -> (r: Option<(u64, CacheBranchId)>)
        ensures
            match r {
                Some((cache, branch)) => {
                    &&& self@.seats.contains_key(vm)
                    &&& self@.seats[vm] == (SeatView { cache, branch: branch.number() })
                },
                None => !self@.seats.contains_key(vm),
            },
    {
        match self.seats.get(&vm) {
            Some(seat) => {
                assert(seat@ == self@.seats[vm]);
                Some((seat.cache, seat.branch))
            },
            None => None,
        }
    }

    /// Adds a VM with empty memory over a filesystem of its own, which was made for it. Where it
    /// could not be made, there is no VM, but its number is used up.
    pub fn create_vm(&mut self, made: Result<S, IoError>) -> (r: Result<VmId, Error>)
        requires
            old(self).wf(),
            old(self)@.forest.next_vm < u64::MAX,
            old(self)@.next_cache < u64::MAX,
        ensures
            final(self).wf(),
            ({
                let v = old(self)@;
                match made {
                    Ok(store) => {
                        let cache = CacheView {
                            id: v.next_cache,
                            next_branch: 2,
                            first_page: 1,
                            next_page: 1,
                            branches: Map::empty().insert(1u64, fresh_branch(store.nodes(), store.identities(), Map::empty())),
                            pages: Map::<Identity<S>, u64>::empty(),
                            frames: Map::empty(),
                            known: Set::empty(),
                        };
                        &&& r matches Ok(id) && {
                            &&& id.number() == v.forest.next_vm
                            &&& !v.seats.contains_key(id)
                            &&& final(self)@ == (SupervisorView {
                                forest: v.forest.created(id),
                                seats: v.seats.insert(id, SeatView { cache: v.next_cache, branch: 1 }),
                                filesystems: v.filesystems.insert(v.next_cache, cache),
                                next_cache: (v.next_cache + 1) as u64,
                            })
                        }
                    },
                    Err(error) => {
                        &&& r == Err::<VmId, Error>(Error::Io(error))
                        &&& final(self)@ == (SupervisorView { forest: ForestView { next_vm: (v.forest.next_vm + 1) as u64, ..v.forest }, ..v })
                    },
                }
            }),
    {
        let ghost before = self@;
        let number: u64 = self.next_cache;
        let id = self.forest.create_vm();
        assert(!before.seats.contains_key(id)) by {
            assert(before.seats.dom().contains(id) <==> before.forest.vms.dom().contains(id));
        }
        let store = match made {
            Ok(store) => store,
            Err(error) => {
                let removed = self.forest.remove_vm(id);
                assert(self@.forest.vms =~= before.forest.vms);
                assert(self@.seats == before.seats && self@.filesystems == before.filesystems);
                return Err(Error::Io(error));
            },
        };
        let (cache, branch) = SharedPageCache::new(number, 1, store);
        self.next_cache = number + 1;
        self.filesystems.insert(number, cache);
        self.seats.insert(id, Seat { cache: number, branch });
        assert(self@.filesystems =~= before.filesystems.insert(number, cache@));
        assert(self@.seats =~= before.seats.insert(id, SeatView { cache: number, branch: 1 }));
        assert(self@.seats.dom() =~= self@.forest.vms.dom());
        assert forall|vm: VmId| #[trigger] self@.seats.contains_key(vm) implies self@.filesystems.contains_key(self@.seats[vm].cache)
            && self@.filesystems[self@.seats[vm].cache].branches.contains_key(self@.seats[vm].branch) by {
            if vm != id {
                assert(before.seats.contains_key(vm));
            }
        }
        assert forall|a: VmId, b: VmId|
            self@.seats.contains_key(a) && self@.seats.contains_key(b) && #[trigger] self@.seats[a] == #[trigger] self@.seats[b] implies a == b by {
            if a != id {
                assert(before.seats.contains_key(a));
            }
            if b != id {
                assert(before.seats.contains_key(b));
            }
        }
        Ok(id)
    }

    /// Publishes one fork point for the source's filesystem and memory.
    pub fn fork_vm(&mut self, source: VmId) -> (r: Result<VmId, Error>)
        requires
            old(self).wf(),
            old(self)@.forest.next_vm < u64::MAX,
        ensures
            final(self).wf(),
            ({
                let v = old(self)@;
                let seat = v.seats[source];
                match r {
                    Ok(child) => {
                        &&& v.seats.contains_key(source)
                        &&& child.number() == v.forest.next_vm
                        &&& !v.seats.contains_key(child)
                        &&& v.cache_of(source).next_branch < u64::MAX
                        &&& final(self)@ == (SupervisorView {
                            forest: v.forest.forked(source, child),
                            seats: v.seats.insert(child, SeatView { cache: seat.cache, branch: v.cache_of(source).next_branch }),
                            ..v.with_cache(source, cache_forked(v.cache_of(source), seat.branch))
                        })
                    },
                    Err(Error::VmNotFound(missing)) => missing == source && !v.seats.contains_key(source) && final(self)@ == v,
                    Err(Error::Cache(CacheError::Io(error))) => {
                        let branch = v.cache_of(source).branches[seat.branch];
                        &&& v.seats.contains_key(source)
                        &&& final(self)@ == v
                        &&& fork_fails::<S>(branch.nodes, branch.identities, error)
                    },
                    Err(Error::Cache(CacheError::InvalidMapping(why))) => {
                        let cache = v.cache_of(source);
                        &&& v.seats.contains_key(source)
                        &&& cache.next_branch == u64::MAX
                        &&& why == "cache branch identity overflow"
                        &&& final(self)@ == v.with_cache(
                            source,
                            with_branch(cache, seat.branch, BranchView { exclusive: Set::empty(), ..cache.branches[seat.branch] }),
                        )
                    },
                    Err(_) => false,
                }
            }),
    {
        let ghost before = self@;
        let (number, branch) = match self.seat(source) {
            Some(seat) => seat,
            None => {
                return Err(Error::VmNotFound(source));
            },
        };
        assert(before.filesystems.contains_key(number));
        let mut cache = match self.take_cache(number) {
            Some(cache) => cache,
            None => {
                return Err(Error::VmNotFound(source));
            },
        };
        let ghost was = cache@;
        let forked = cache.fork(branch);
        assert(idle(cache@));
        self.put_cache(number, cache);
        assert(self@.filesystems =~= before.filesystems.insert(number, cache@));
        proof {
            lemma_cache_replaced(before, number, cache@);
        }
        let child_branch = match forked {
            Ok(child_branch) => child_branch,
            Err(error) => {
                proof {
                    if cache@ == was {
                        assert(self@.filesystems =~= before.filesystems);
                    }
                }
                return Err(Error::Cache(error));
            },
        };
        let ghost kept = self@;
        assert(before.seats.dom().contains(source));
        assert(before.forest.vms.dom().contains(source));
        let child = match self.forest.fork_vm(source) {
            Ok(child) => child,
            Err(error) => {
                return Err(error);
            },
        };
        assert(!before.seats.contains_key(child)) by {
            assert(before.seats.dom().contains(child) <==> before.forest.vms.dom().contains(child));
        }
        self.seats.insert(child, Seat { cache: number, branch: child_branch });
        assert(self@.seats =~= before.seats.insert(child, SeatView { cache: number, branch: was.next_branch }));
        assert(self@.seats.dom() =~= self@.forest.vms.dom());
        assert forall|vm: VmId| #[trigger] self@.seats.contains_key(vm) implies self@.filesystems.contains_key(self@.seats[vm].cache)
            && self@.filesystems[self@.seats[vm].cache].branches.contains_key(self@.seats[vm].branch) by {
            if vm != child {
                assert(kept.seats.contains_key(vm));
            }
        }
        assert forall|a: VmId, b: VmId|
            self@.seats.contains_key(a) && self@.seats.contains_key(b) && #[trigger] self@.seats[a] == #[trigger] self@.seats[b] implies a == b by {
            if a != child {
                assert(before.seats.contains_key(a));
                assert(was.branches.contains_key(before.seats[a].branch) || before.seats[a].cache != number);
            }
            if b != child {
                assert(before.seats.contains_key(b));
                assert(was.branches.contains_key(before.seats[b].branch) || before.seats[b].cache != number);
            }
        }
        Ok(child)
    }
}

/// A supervisor stays well formed where one of its caches changes and keeps its branches.
proof fn lemma_cache_replaced<I>(v: SupervisorView<I>, number: u64, cache: CacheView<I>)
    requires
        v.wf(),
        v.filesystems.contains_key(number),
        cache.wf(),
        idle(cache),
        cache.id == number,
        forall|b: u64| #[trigger] v.filesystems[number].branches.contains_key(b) ==> cache.branches.contains_key(b),
    ensures
        (SupervisorView { filesystems: v.filesystems.insert(number, cache), ..v }).wf(),
{
    let w = SupervisorView { filesystems: v.filesystems.insert(number, cache), ..v };
    assert forall|vm: VmId| #[trigger] w.seats.contains_key(vm) implies w.filesystems.contains_key(w.seats[vm].cache)
        && w.filesystems[w.seats[vm].cache].branches.contains_key(w.seats[vm].branch) by {
        assert(v.seats.contains_key(vm));
    }
    assert forall|c: u64| #[trigger] w.filesystems.contains_key(c) implies w.filesystems[c].wf() && idle(w.filesystems[c]) && w.filesystems[c].id == c && c
        < w.next_cache by {
        assert(v.filesystems.contains_key(c));
    }
}

/// Whether some VM's files are in the cache.
pub open spec fn cache_used<I>(v: SupervisorView<I>, cache: u64) -> bool {
    exists|vm: VmId| #[trigger] v.seats.contains_key(vm) && v.seats[vm].cache == cache
}

/// The supervisor once a VM is removed; a cache that no VM uses any more goes with it.
pub open spec fn vm_removed<S: ForkableNodeStore>(v: SupervisorView<Identity<S>>, vm: VmId) -> SupervisorView<Identity<S>> {
    let seat = v.seats[vm];
    let rest = SupervisorView { forest: v.forest.removed(vm), seats: v.seats.remove(vm), ..v };
    SupervisorView {
        filesystems: if cache_used(rest, seat.cache) {
            v.filesystems.insert(seat.cache, branch_removed::<S>(v.filesystems[seat.cache], seat.branch))
        } else {
            v.filesystems.remove(seat.cache)
        },
        ..rest
    }
}

impl<S: ForkableNodeStore> Supervisor<S> {
    fn is_cache_used(&self, cache: u64) -> (b: bool)
        ensures
            b == cache_used(self@, cache),
    {
        let n: usize = self.seats.len();
        let mut i: usize = 0;
        while i < n
            invariant
                i <= n,
                n == self.seats.keys().len(),
                self.seats.listed(),
                forall|j: int| 0 <= j < i ==> self@.seats[#[trigger] self.seats.keys()[j]].cache != cache,
            decreases n - i,
        {
            if self.seats.value_at(i).cache == cache {
                assert(self@.seats.contains_key(self.seats.keys()[i as int]));
                return true;
            }
            i += 1;
        }
        assert forall|vm: VmId| #[trigger] self@.seats.contains_key(vm) implies self@.seats[vm].cache != cache by {
            assert(self.seats@.contains_key(vm));
            assert(self.seats.keys().contains(vm));
        }
        false
    }

    /// Removes a VM.
    pub fn remove_vm(&mut self, vm: VmId) -> (r: Result<(), Error>)
        requires
            old(self).wf(),
        ensures
            final(self).wf(),
            if old(self)@.seats.contains_key(vm) {
                r is Ok && final(self)@ == vm_removed::<S>(old(self)@, vm)
            } else {
                r == Err::<(), Error>(Error::VmNotFound(vm)) && final(self)@ == old(self)@
            },
    {
        let ghost before = self@;
        let (number, branch) = match self.seat(vm) {
            Some(seat) => seat,
            None => {
                return Err(Error::VmNotFound(vm));
            },
        };
        assert(before.seats.dom().contains(vm));
        assert(before.forest.vms.dom().contains(vm));
        assert(before.filesystems.contains_key(number));
        let gone = self.seats.remove(&vm);
        let left = self.forest.remove_vm(vm);
        assert(self@.seats =~= before.seats.remove(vm));
        let ghost rest = self@;
        let used = self.is_cache_used(number);
        if let Some(mut cache) = self.take_cache(number) {
            let removed = cache.remove_branch(branch);
            if used {
                self.put_cache(number, cache);
                assert(self@.filesystems =~= before.filesystems.insert(number, cache@));
            }
            if let Err(error) = removed {
                return Err(Error::Cache(error));
            }
        }
        assert(self@ =~= vm_removed::<S>(before, vm));
        assert(self@.wf()) by {
            assert(self@.seats.dom() =~= self@.forest.vms.dom());
            assert forall|x: VmId| #[trigger] self@.seats.contains_key(x) implies self@.filesystems.contains_key(self@.seats[x].cache)
                && self@.filesystems[self@.seats[x].cache].branches.contains_key(self@.seats[x].branch) by {
                assert(before.seats.contains_key(x));
                assert(rest.seats.contains_key(x));
                if before.seats[x].cache == number {
                    assert(cache_used(rest, number));
                    if before.seats[x].branch == branch.number() {
                        assert(before.seats[x] =~= before.seats[vm]);
                        assert(before.seats[x] == before.seats[vm]);
                    }
                }
            }
            assert forall|a: VmId, b: VmId|
                self@.seats.contains_key(a) && self@.seats.contains_key(b) && #[trigger] self@.seats[a] == #[trigger] self@.seats[b] implies a == b by {
                assert(before.seats.contains_key(a) && before.seats.contains_key(b));
                assert(before.seats[a] == before.seats[b]);
            }
            assert forall|c: u64| #[trigger] self@.filesystems.contains_key(c) implies self@.filesystems[c].wf() && idle(self@.filesystems[c])
                && self@.filesystems[c].id == c && c < self@.next_cache by {
                assert(before.filesystems.contains_key(c));
            }
        }
        Ok(())
    }

    /// Runs an operation on the filesystem of a VM.
    pub fn with_store_mut<T, F: FnOnce(&mut S) -> Result<T, IoError>>(&mut self, vm: VmId, operation: F) -> (r: Result<T, Error>)
        requires
            old(self).wf(),
            forall|store: &mut S| #[trigger] call_requires(operation, (store,)),
        ensures
            final(self).wf(),
            if old(self)@.seats.contains_key(vm) {
                let v = old(self)@;
                let b = v.seats[vm].branch;
                let was = v.cache_of(vm).branches[b];
                exists|store: &mut S, done: Result<T, IoError>|
                    {
                        &&& #[trigger] call_ensures(operation, (store,), done)
                        &&& store.nodes() == was.nodes
                        &&& store.identities() == was.identities
                        &&& final(self)@ == v.with_cache(
                            vm,
                            with_branch(v.cache_of(vm), b, BranchView { nodes: final(store).nodes(), identities: final(store).identities(), ..was }),
                        )
                        &&& r == match done {
                            Ok(value) => Ok::<T, Error>(value),
                            Err(error) => Err(Error::Cache(CacheError::Io(error))),
                        }
                    }
            } else {
                r == Err::<T, Error>(Error::VmNotFound(vm)) && final(self)@ == old(self)@
            },
    {
        let ghost before = self@;
        let (number, branch) = match self.seat(vm) {
            Some(seat) => seat,
            None => {
                return Err(Error::VmNotFound(vm));
            },
        };
        assert(before.filesystems.contains_key(number));
        let mut cache = match self.take_cache(number) {
            Some(cache) => cache,
            None => {
                return Err(Error::VmNotFound(vm));
            },
        };
        let ghost was = cache@;
        proof {
            cache.lemma_store_of(branch.number());
        }
        let done = cache.with_store_mut(branch, operation);
        assert(idle(cache@));
        self.put_cache(number, cache);
        assert(self@.filesystems =~= before.filesystems.insert(number, cache@));
        proof {
            lemma_cache_replaced(before, number, cache@);
        }
        match done {
            Ok(value) => Ok(value),
            Err(error) => Err(Error::Cache(error)),
        }
    }

    /// Writes to a file of a VM.
    pub fn write_file(&mut self, vm: VmId, node: NodeId, offset: u64, bytes: &[u8]) -> (r: Result<(), Error>)
        requires
            old(self).wf(),
            old(self)@.seats.contains_key(vm) ==> old(self)@.cache_of(vm).next_page + 2 * pages_reached(offset as int, bytes@.len() as int) < u64::MAX - 1,
        ensures
            final(self).wf(),
            ({
                let v = old(self)@;
                let cache = v.cache_of(vm);
                let b = v.seats[vm].branch;
                let count = open_count(cache.branches[b].open, node);
                let opened = node_opened(cache, b, node);
                let contents = cache.branches[b].nodes[node];
                if !v.seats.contains_key(vm) {
                    r == Err::<(), Error>(Error::VmNotFound(vm)) && final(self)@ == v
                } else {
                    let now = final(self)@.cache_of(vm);
                    &&& final(self)@ == v.with_cache(vm, now)
                    &&& match r {
                        Ok(()) => {
                            &&& offset + bytes@.len() <= contents.len()
                            &&& exists|held: CacheView<Identity<S>>|
                                {
                                    &&& #[trigger] written_through::<S>(opened, held, b, node, offset as int, bytes@)
                                    &&& node_closed(held, now, b, node, count)
                                }
                        },
                        Err(Error::Cache(CacheError::InvalidMapping(why))) => {
                            ||| count == usize::MAX && why == "open reference count overflow" && now == cache
                            ||| offset + bytes@.len() > u64::MAX && why == "write range overflow" && node_closed(opened, now, b, node, count)
                            ||| contents.len() < offset + bytes@.len() <= u64::MAX && why == "write extends beyond file" && node_closed(
                                opened,
                                now,
                                b,
                                node,
                                count,
                            )
                        },
                        Err(Error::Cache(CacheError::Io(error))) => {
                            let was = cache.branches[b];
                            ||| {
                                &&& count == 0
                                &&& now == with_branch(cache, b, BranchView { open: was.open.insert(node, 0), ..was })
                                &&& opening_fails::<S>(was.nodes, was.identities, node, error)
                            }
                            ||| exists|held: CacheView<Identity<S>>|
                                {
                                    &&& #[trigger] file_write_fails::<S>(opened, held, b, node, offset, bytes@, error)
                                    &&& offset + bytes@.len() <= u64::MAX
                                    &&& node_closed(held, now, b, node, count)
                                }
                            ||| exists|held: CacheView<Identity<S>>|
                                {
                                    &&& #[trigger] written_through::<S>(opened, held, b, node, offset as int, bytes@)
                                    &&& offset + bytes@.len() <= contents.len()
                                    &&& node_closed(held, now, b, node, count)
                                    &&& count == 0
                                    &&& closing_fails::<S>(held.branches[b].nodes, held.branches[b].identities, node, error)
                                }
                        },
                        Err(_) => false,
                    }
                }
            }),
    {
        let ghost before = self@;
        let (number, branch) = match self.seat(vm) {
            Some(seat) => seat,
            None => {
                return Err(Error::VmNotFound(vm));
            },
        };
        assert(before.filesystems.contains_key(number));
        let mut cache = match self.take_cache(number) {
            Some(cache) => cache,
            None => {
                return Err(Error::VmNotFound(vm));
            },
        };
        let ghost was = cache@;
        let ghost b = branch.number();
        let ghost count = open_count(was.branches[b].open, node);
        assert(was.branches[b].active == Map::<u64, usize>::empty());
        let opened = cache.open(branch, node);
        if let Err(error) = opened {
            assert(idle(cache@));
            self.put_cache(number, cache);
            assert(self@.filesystems =~= before.filesystems.insert(number, cache@));
            proof {
                lemma_cache_replaced(before, number, cache@);
            }
            return Err(Error::Cache(error));
        }
        assert(cache@ == node_opened(was, b, node));
        let result = cache.write(branch, node, offset, bytes);
        let ghost held = cache@;
        proof {
            assert(bytes@.take(bytes@.len() as int) =~= bytes@);
            if result is Err && held == node_opened(was, b, node) {
                crate::cache::visible::lemma_written_nothing::<S>(held, b, node, offset as int);
                assert(bytes@.take(0) =~= Seq::<u8>::empty());
                assert(written_through::<S>(node_opened(was, b, node), held, b, node, offset as int, bytes@.take(0)));
            }
            assert(held.branches[b].open == node_opened(was, b, node).branches[b].open);
            assert(held.branches.dom() =~= was.branches.dom());
            assert(held.branches.dom().contains(b));
            assert(held.branches[b].active == Map::<u64, usize>::empty());
            assert(idle(held)) by {
                assert forall|x: u64| #[trigger] held.branches.contains_key(x) implies held.branches[x].active == Map::<u64, usize>::empty() by {
                    assert(was.branches.dom().contains(x));
                    assert(was.branches.contains_key(x));
                    assert(node_opened(was, b, node).branches.contains_key(x));
                    if x != b {
                        assert(held.branches[x] == node_opened(was, b, node).branches[x]);
                    }
                }
            }
        }
        let close_result = cache.close(branch, node);
        assert(node_closed(held, cache@, b, node, count));
        assert(idle(cache@));
        self.put_cache(number, cache);
        assert(self@.filesystems =~= before.filesystems.insert(number, cache@));
        proof {
            lemma_cache_replaced(before, number, cache@);
        }
        match result {
            Err(error) => {
                return Err(Error::Cache(error));
            },
            Ok(_) => {},
        }
        match close_result {
            Err(error) => Err(Error::Cache(error)),
            Ok(()) => Ok(()),
        }
    }
}

/// The branches that the given VMs have in a cache, in the order of the VMs.
pub open spec fn branches_in<I>(v: SupervisorView<I>, vms: Seq<VmId>, cache: u64) -> Seq<u64>
    decreases vms.len(),
{
    if vms.len() == 0 {
        Seq::empty()
    } else {
        let rest = branches_in(v, vms.drop_last(), cache);
        if v.seats[vms.last()].cache == cache {
            rest.push(v.seats[vms.last()].branch)
        } else {
            rest
        }
    }
}

/// The sets of pages that the VMs of a cache see.
pub open spec fn pages_of_vms<S: ForkableNodeStore>(v: SupervisorView<Identity<S>>, vms: Seq<VmId>, cache: u64) -> Seq<Set<u64>> {
    branches_in(v, vms, cache).map_values(|b: u64| branch_pages::<S>(v.filesystems[cache], b))
}

/// How many pages the VMs see in the given caches.
pub open spec fn resident_in<S: ForkableNodeStore>(v: SupervisorView<Identity<S>>, vms: Seq<VmId>, caches: Seq<u64>) -> nat
    decreases caches.len(),
{
    if caches.len() == 0 {
        0
    } else {
        resident_in::<S>(v, vms, caches.drop_last()) + held(pages_of_vms::<S>(v, vms, caches.last())).len()
    }
}

/// How many pages two or more of the VMs see in the given caches.
pub open spec fn shared_in<S: ForkableNodeStore>(v: SupervisorView<Identity<S>>, vms: Seq<VmId>, caches: Seq<u64>) -> nat
    decreases caches.len(),
{
    if caches.len() == 0 {
        0
    } else {
        shared_in::<S>(v, vms, caches.drop_last()) + held_twice(pages_of_vms::<S>(v, vms, caches.last())).len()
    }
}

/// Whether the sequences are all VMs and all caches of a supervisor, each in order.
pub open spec fn lists_all<I>(v: SupervisorView<I>, vms: Seq<VmId>, caches: Seq<u64>) -> bool {
    &&& ascending::<VmId>(vms)
    &&& ascending::<u64>(caches)
    &&& forall|vm: VmId| #[trigger] vms.contains(vm) <==> v.seats.contains_key(vm)
    &&& forall|c: u64| #[trigger] caches.contains(c) <==> v.filesystems.contains_key(c)
}

/// Whether the pages of all caches can be counted.
pub open spec fn can_be_counted<S: ForkableNodeStore>(v: SupervisorView<Identity<S>>) -> bool {
    forall|vms: Seq<VmId>, caches: Seq<u64>, n: int|
        lists_all(v, vms, caches) && 0 <= n <= caches.len() ==> #[trigger] resident_in::<S>(v, vms, caches.take(n)) <= usize::MAX && shared_in::<S>(
            v,
            vms,
            caches.take(n),
        ) <= usize::MAX
}

impl<S: ForkableNodeStore> Supervisor<S> {
    /// Reads from a file of a VM, as far as the file goes.
    pub fn read_file(&mut self, vm: VmId, node: NodeId, offset: u64, len: usize) -> (r: Result<Vec<u8>, Error>)
        requires
            old(self).wf(),
            old(self)@.seats.contains_key(vm) ==> old(self)@.cache_of(vm).next_page + pages_reached(offset as int, len as int) < u64::MAX - 1,
        ensures
            final(self).wf(),
            ({
                let v = old(self)@;
                let cache = v.cache_of(vm);
                let b = v.seats[vm].branch;
                let count = open_count(cache.branches[b].open, node);
                let opened = node_opened(cache, b, node);
                let contents = cache.branches[b].nodes[node];
                if !v.seats.contains_key(vm) {
                    r == Err::<Vec<u8>, Error>(Error::VmNotFound(vm)) && final(self)@ == v
                } else {
                    let now = final(self)@.cache_of(vm);
                    &&& final(self)@ == v.with_cache(vm, now)
                    &&& match r {
                        Ok(bytes) => {
                            let read = readable(contents, offset as int, len as int);
                            &&& bytes@ == seen_bytes::<S>(opened, b, node, offset as int, read as nat)
                            &&& node_closed(
                                pages_in::<S>(opened, b, node, page_floor(offset as int), pages_reached(offset as int, read)),
                                now,
                                b,
                                node,
                                count,
                            )
                        },
                        Err(Error::Cache(CacheError::InvalidMapping(why))) => {
                            count == usize::MAX && why == "open reference count overflow" && now == cache
                        },
                        Err(Error::Cache(CacheError::Io(error))) => {
                            let was = cache.branches[b];
                            let read = readable(contents, offset as int, len as int);
                            ||| {
                                &&& count == 0
                                &&& now == with_branch(cache, b, BranchView { open: was.open.insert(node, 0), ..was })
                                &&& opening_fails::<S>(was.nodes, was.identities, node, error)
                            }
                            ||| exists|held: CacheView<Identity<S>>|
                                {
                                    &&& #[trigger] file_read_fails::<S>(opened, held, b, node, offset, len as int, error)
                                    &&& node_closed(held, now, b, node, count)
                                }
                            ||| {
                                &&& node_closed(
                                    pages_in::<S>(opened, b, node, page_floor(offset as int), pages_reached(offset as int, read)),
                                    now,
                                    b,
                                    node,
                                    count,
                                )
                                &&& count == 0
                                &&& closing_fails::<S>(was.nodes, was.identities, node, error)
                            }
                        },
                        Err(_) => false,
                    }
                }
            }),
    {
        let ghost before = self@;
        let (number, branch) = match self.seat(vm) {
            Some(seat) => seat,
            None => {
                return Err(Error::VmNotFound(vm));
            },
        };
        assert(before.filesystems.contains_key(number));
        let mut cache = match self.take_cache(number) {
            Some(cache) => cache,
            None => {
                return Err(Error::VmNotFound(vm));
            },
        };
        let ghost was = cache@;
        let ghost b = branch.number();
        let ghost count = open_count(was.branches[b].open, node);
        assert(was.branches[b].active == Map::<u64, usize>::empty());
        let opened = cache.open(branch, node);
        if let Err(error) = opened {
            assert(idle(cache@));
            self.put_cache(number, cache);
            assert(self@.filesystems =~= before.filesystems.insert(number, cache@));
            proof {
                lemma_cache_replaced(before, number, cache@);
            }
            return Err(Error::Cache(error));
        }
        let ghost ready = cache@;
        assert(ready == node_opened(was, b, node));
        let mut bytes = zero_bytes(len);
        let result = cache.read(branch, node, offset, bytes.as_mut_slice());
        let ghost held = cache@;
        let ghost pages: nat = choose|pages: nat| held == #[trigger] pages_in::<S>(ready, b, node, page_floor(offset as int), pages);
        assert(ready == pages_in::<S>(ready, b, node, page_floor(offset as int), 0));
        proof {
            assert(held == pages_in::<S>(ready, b, node, page_floor(offset as int), pages));
            lemma_pages_in_branches::<S>(ready, b, node, page_floor(offset as int), pages);
            assert(idle(held)) by {
                assert forall|x: u64| #[trigger] held.branches.contains_key(x) implies held.branches[x].active == Map::<u64, usize>::empty() by {
                    assert(was.branches.contains_key(x));
                }
            }
        }
        let close_result = cache.close(branch, node);
        assert(node_closed(held, cache@, b, node, count));
        assert(idle(cache@));
        self.put_cache(number, cache);
        assert(self@.filesystems =~= before.filesystems.insert(number, cache@));
        proof {
            lemma_cache_replaced(before, number, cache@);
        }
        let read: usize = match result {
            Err(error) => {
                return Err(Error::Cache(error));
            },
            Ok(read) => read,
        };
        if let Err(error) = close_result {
            return Err(Error::Cache(error));
        }
        bytes.truncate(read);
        assert(bytes@ =~= seen_bytes::<S>(ready, b, node, offset as int, read as nat));
        Ok(bytes)
    }

    /// Writes to the memory of a VM.
    pub fn write_memory(&mut self, vm: VmId, guest_address: u64, bytes: &[u8]) -> (r: Result<(), Error>)
        requires
            old(self).wf(),
        ensures
            final(self).wf(),
            r == old(self)@.forest.write_ends(vm, guest_address as int, bytes@.len() as int),
            final(self)@ == (SupervisorView {
                forest: if old(self)@.seats.contains_key(vm) {
                    old(self)@.forest.after_memory_write(vm, guest_address as int, bytes@)
                } else {
                    old(self)@.forest
                },
                ..old(self)@
            }),
    {
        let ghost before = self@;
        assert(before.seats.dom().contains(vm) <==> before.forest.vms.dom().contains(vm));
        let r = self.forest.write_memory(vm, guest_address, bytes);
        assert(self@.seats.dom() =~= self@.forest.vms.dom());
        r
    }

    /// Reads from the memory of a VM; what was never written reads as zero.
    pub fn read_memory(&self, vm: VmId, guest_address: u64, len: usize) -> (r: Result<Vec<u8>, Error>)
        requires
            self.wf(),
        ensures
            match r {
                Ok(bytes) => {
                    &&& self@.seats.contains_key(vm)
                    &&& guest_address + len <= u64::MAX
                    &&& bytes@ == self@.forest.vms[vm].memory.read(memory_name(), guest_address as int, len as nat)
                },
                Err(error) => error == (if !self@.seats.contains_key(vm) {
                    Error::VmNotFound(vm)
                } else {
                    Error::RangeOverflow
                }) && (self@.seats.contains_key(vm) ==> guest_address + len > u64::MAX),
            },
    {
        assert(self@.seats.dom().contains(vm) <==> self@.forest.vms.dom().contains(vm));
        self.forest.read_memory(vm, guest_address, len)
    }

    /// The branches that the VMs have in a cache.
    fn branches_in_cache(&self, cache: u64) -> (branches: Vec<CacheBranchId>)
        requires
            self.wf(),
        ensures
            branches@.map_values(|id: CacheBranchId| id.number()) == branches_in(self@, self.seats.keys(), cache),
            forall|i: int| 0 <= i < branches@.len() ==> self@.filesystems[cache].branches.contains_key((#[trigger] branches@[i]).number()),
    {
        let n: usize = self.seats.len();
        let mut branches: Vec<CacheBranchId> = Vec::new();
        let ghost keys = self.seats.keys();
        assert(branches@.map_values(|id: CacheBranchId| id.number()) =~= branches_in(self@, keys.take(0), cache));
        let mut i: usize = 0;
        while i < n
            invariant
                i <= n,
                self.wf(),
                n == keys.len(),
                keys == self.seats.keys(),
                self.seats.listed(),
                branches@.map_values(|id: CacheBranchId| id.number()) == branches_in(self@, keys.take(i as int), cache),
                forall|j: int| 0 <= j < branches@.len() ==> self@.filesystems[cache].branches.contains_key((#[trigger] branches@[j]).number()),
            decreases n - i,
        {
            let seat = self.seats.value_at(i);
            let ghost vm = keys[i as int];
            assert(seat@ == self@.seats[vm]);
            assert(self@.seats.contains_key(vm));
            assert(keys.take(i + 1).drop_last() =~= keys.take(i as int));
            assert(keys.take(i + 1).last() == vm);
            let ghost earlier = branches@;
            if seat.cache == cache {
                branches.push(seat.branch);
                assert(branches@.map_values(|id: CacheBranchId| id.number()) =~= earlier.map_values(|id: CacheBranchId| id.number()).push(seat.branch.number()));
            }
            i += 1;
        }
        assert(keys.take(n as int) =~= keys);
        branches
    }

    /// Counts the physical pages behind all VMs: those of memory as the forest counts them, and
    /// those of each lineage's filesystem cache.
    pub fn page_accounting(&mut self) -> (accounting: PageAccounting)
        requires
            old(self).wf(),
            can_be_counted::<S>(old(self)@),
        ensures
            final(self).wf(),
            final(self)@ == old(self)@,
            old(self)@.forest.accounted(Space::Memory, accounting.memory),
            exists|vms: Seq<VmId>, caches: Seq<u64>|
                {
                    &&& #[trigger] lists_all(old(self)@, vms, caches)
                    &&& accounting.filesystem.resident_pages == resident_in::<S>(old(self)@, vms, caches)
                    &&& accounting.filesystem.shared_pages == shared_in::<S>(old(self)@, vms, caches)
                },
    {
        let ghost before = self@;
        let memory = self.forest.page_accounting().memory;
        let ghost vms = self.seats.keys();
        let vm_count: usize = self.seats.len();
        assert(vm_count == vms.len());
        let n: usize = self.filesystems.len();
        let ghost caches = self.filesystems.keys();
        let mut numbers: Vec<u64> = Vec::new();
        let mut i: usize = 0;
        while i < n
            invariant
                i <= n,
                *self == *old(self),
                n == self.filesystems.keys().len(),
                numbers@ == self.filesystems.keys().take(i as int),
            decreases n - i,
        {
            numbers.push(*self.filesystems.key_at(i));
            assert(self.filesystems.keys().take(i + 1) =~= self.filesystems.keys().take(i as int).push(self.filesystems.keys()[i as int]));
            i += 1;
        }
        assert(numbers@ =~= caches);
        assert(lists_all(before, vms, caches)) by {
            assert forall|vm: VmId| #[trigger] vms.contains(vm) <==> before.seats.contains_key(vm) by {
                assert(self.seats@.contains_key(vm) <==> self.seats.keys().contains(vm));
            }
            assert forall|c: u64| #[trigger] caches.contains(c) <==> before.filesystems.contains_key(c) by {
                assert(self.filesystems@.contains_key(c) <==> self.filesystems.keys().contains(c));
            }
        }
        let mut resident: usize = 0;
        let mut shared: usize = 0;
        i = 0;
        while i < n
            invariant
                i <= n,
                n == caches.len(),
                numbers@ == caches,
                before == old(self)@,
                before.wf(),
                can_be_counted::<S>(before),
                lists_all(before, vms, caches),
                self@ == before,
                self.seats.keys() == vms,
                resident == resident_in::<S>(before, vms, caches.take(i as int)),
                shared == shared_in::<S>(before, vms, caches.take(i as int)),
            decreases n - i,
        {
            let number: u64 = numbers[i];
            assert(caches.contains(number));
            assert(before.filesystems.contains_key(number));
            let branches = self.branches_in_cache(number);
            proof {
                assert(caches.take(i + 1).drop_last() =~= caches.take(i as int));
                assert(caches.take(i + 1).last() == number);
                assert(resident_in::<S>(before, vms, caches.take(i + 1)) <= usize::MAX);
            }
            if let Some(mut cache) = self.take_cache(number) {
                let counted = cache.page_accounting(&branches);
                self.put_cache(number, cache);
                assert(self@.filesystems =~= before.filesystems);
                proof {
                    assert(branches@.map_values(|id: CacheBranchId| branch_pages::<S>(before.filesystems[number], id.number())) =~= pages_of_vms::<S>(
                        before,
                        vms,
                        number,
                    )) by {
                        let ids = branches@.map_values(|id: CacheBranchId| id.number());
                        assert forall|j: int| 0 <= j < branches@.len() implies branch_pages::<S>(before.filesystems[number], (#[trigger] branches@[j]).number())
                            == pages_of_vms::<S>(before, vms, number)[j] by {
                            assert(ids[j] == branches_in(before, vms, number)[j]);
                        }
                        assert(ids.len() == branches@.len());
                    }
                }
                if let Ok(counted) = counted {
                    resident = resident + counted.resident_pages;
                    shared = shared + counted.shared_pages;
                }
            }
            i += 1;
        }
        assert(caches.take(n as int) =~= caches);
        PageAccounting { memory, filesystem: SpaceAccounting { resident_pages: resident, shared_pages: shared } }
    }
}

/// Looking at pages leaves the branches as they are.
pub proof fn lemma_pages_in_branches<S: ForkableNodeStore>(v: CacheView<Identity<S>>, b: u64, node: NodeId, first: u64, count: nat)
    ensures
        pages_in::<S>(v, b, node, first, count).branches == v.branches,
        pages_in::<S>(v, b, node, first, count).id == v.id,
    decreases count,
{
    if count > 0 {
        lemma_pages_in_branches::<S>(v, b, node, first, (count - 1) as nat);
    }
}

impl<S: ForkableNodeStore> Default for Supervisor<S> {
    fn default() -> (supervisor: Self)
        ensures
            supervisor.wf(),
            supervisor@ == (SupervisorView {
                forest: ForestView { next_vm: 1, next_page: 1, vms: Map::empty() },
                seats: Map::empty(),
                filesystems: Map::<u64, CacheView<Identity<S>>>::empty(),
                next_cache: 1,
            }),
    {
        Supervisor::new()
    }
}

} // verus!
