//! Laws of the fork forest.

use vstd::prelude::*;

use crate::cache::laws::{fork_shows_the_source, removal_leaves_every_page};
#[allow(unused_imports)]
use crate::cache::laws::all_known;
#[allow(unused_imports)]
use crate::cache::shared::{branch_pages, cache_forked, open_count, CacheView, Identity};
use crate::cache::store::{ForkableNodeStore, NodeId};
#[allow(unused_imports)]
use crate::cache::visible::{page_start, visible_page};
#[allow(unused_imports)]
use crate::census::{held, held_twice, lemma_held, lemma_held_twice};
#[allow(unused_imports)]
use crate::fork::forest::{
    lemma_created_wf, lemma_file_write_wf, lemma_forked_wf, lemma_memory_write_wf, memory_name, Error, ForestView, Space, SpaceView, VmId,
};
#[allow(unused_imports)]
use crate::fork::pages::{page_ids, pages_written, touched, touched_pages, write_result, PageKey};
#[allow(unused_imports)]
use crate::fork::supervisor::{
    branches_in, cache_used, node_closed, node_opened, pages_of_vms, resident_in, shared_in, vm_removed, SeatView, SupervisorView,
};

verus! {

/// A fork captures memory and filesystem at one point: the child has, page for page, what the
/// source had in both, the source keeps it, and no other VM changes.
pub proof fn fork_captures_both_spaces(v: ForestView, source: VmId, child: VmId)
    requires
        v.wf(),
        v.vms.contains_key(source),
        !v.vms.contains_key(child),
    ensures
        ({
            let w = v.forked(source, child);
            &&& w.vms.dom() == v.vms.dom().insert(child)
            &&& w.vms[child].memory.pages == v.vms[source].memory.pages
            &&& w.vms[child].filesystem.pages == v.vms[source].filesystem.pages
            &&& w.vms[source].memory.pages == v.vms[source].memory.pages
            &&& w.vms[source].filesystem.pages == v.vms[source].filesystem.pages
            &&& forall|other: VmId| v.vms.contains_key(other) && other != source ==> #[trigger] w.vms[other] == v.vms[other]
        }),
{
    assert(v.forked(source, child).vms.dom() =~= v.vms.dom().insert(child));
}

/// A fork copies no page: the pages kept alive are those that were, all pages that the source sees
/// are now shared, and so are all that were shared before.
pub proof fn fork_copies_no_page(v: ForestView, source: VmId, child: VmId, kind: Space)
    requires
        v.wf(),
        v.vms.contains_key(source),
        !v.vms.contains_key(child),
    ensures
        v.forked(source, child).resident(kind) == v.resident(kind),
        v.forked(source, child).next_page == v.next_page,
        page_ids(v.vms[source].space(kind).pages).subset_of(v.forked(source, child).shared(kind)),
        v.shared(kind).subset_of(v.forked(source, child).shared(kind)),
{
    let w = v.forked(source, child);
    assert(w.vms[source].space(kind).retained == v.vms[source].space(kind).retained);
    assert(w.vms[child].space(kind).retained == v.vms[source].space(kind).retained);
    assert(w.resident(kind) =~= v.resident(kind)) by {
        assert forall|id: u64| w.resident(kind).contains(id) <==> v.resident(kind).contains(id) by {
            if w.resident(kind).contains(id) {
                let vm = choose|vm: VmId| w.vms.contains_key(vm) && (#[trigger] w.vms[vm]).space(kind).retained.contains(id);
                if vm == child || vm == source {
                    assert(v.vms.contains_key(source) && v.vms[source].space(kind).retained.contains(id));
                } else {
                    assert(v.vms.contains_key(vm) && v.vms[vm].space(kind).retained.contains(id));
                }
            }
            if v.resident(kind).contains(id) {
                let vm = choose|vm: VmId| v.vms.contains_key(vm) && (#[trigger] v.vms[vm]).space(kind).retained.contains(id);
                assert(w.vms.contains_key(vm) && w.vms[vm].space(kind).retained.contains(id));
            }
        }
    }
    assert forall|id: u64| page_ids(v.vms[source].space(kind).pages).contains(id) implies w.shared(kind).contains(id) by {
        assert(page_ids(w.vms[source].space(kind).pages).contains(id));
        assert(page_ids(w.vms[child].space(kind).pages).contains(id));
        assert(source != child);
    }
    assert forall|id: u64| v.shared(kind).contains(id) implies w.shared(kind).contains(id) by {
        let (a, b) = choose|a: VmId, b: VmId|
            a != b && v.vms.contains_key(a) && v.vms.contains_key(b) && page_ids((#[trigger] v.vms[a]).space(kind).pages).contains(id) && page_ids(
                (#[trigger] v.vms[b]).space(kind).pages,
            ).contains(id);
        assert(page_ids(w.vms[a].space(kind).pages).contains(id));
        assert(page_ids(w.vms[b].space(kind).pages).contains(id));
    }
}

/// A VM reads the bytes that it wrote to a file, and everything else as before.
pub proof fn file_reads_what_was_written(v: ForestView, vm: VmId, name: Seq<u8>, offset: u64, bytes: Seq<u8>, other: Seq<u8>, address: int)
    requires
        v.wf(),
        v.write_ends(vm, offset as int, bytes.len() as int) is Ok,
        0 <= address <= u64::MAX,
    ensures
        v.after_file_write(vm, name, offset as int, bytes).vms[vm].filesystem.byte(other, address) == (if other == name && offset <= address < offset
            + bytes.len() {
            bytes[address - offset]
        } else {
            v.vms[vm].filesystem.byte(other, address)
        }),
{
    lemma_space_reads_back(v.vms[vm].filesystem, name, offset as int, bytes, v.next_page as int, other, address);
}

/// A VM reads the bytes that it wrote to memory, and everything else as before.
pub proof fn memory_reads_what_was_written(v: ForestView, vm: VmId, at: u64, bytes: Seq<u8>, address: int)
    requires
        v.wf(),
        v.write_ends(vm, at as int, bytes.len() as int) is Ok,
        0 <= address <= u64::MAX,
    ensures
        v.after_memory_write(vm, at as int, bytes).vms[vm].memory.byte(memory_name(), address) == (if at <= address < at + bytes.len() {
            bytes[address - at]
        } else {
            v.vms[vm].memory.byte(memory_name(), address)
        }),
{
    lemma_space_reads_back(v.vms[vm].memory, memory_name(), at as int, bytes, v.next_page as int, memory_name(), address);
}

/// No other VM sees what a VM writes, and a write to one space leaves the VM's other space alone.
pub proof fn writes_are_isolated(v: ForestView, vm: VmId, name: Seq<u8>, offset: int, bytes: Seq<u8>, other: VmId)
    requires
        v.vms.contains_key(vm),
    ensures
        v.vms.contains_key(other) && other != vm ==> v.after_file_write(vm, name, offset, bytes).vms[other] == v.vms[other],
        v.vms.contains_key(other) && other != vm ==> v.after_memory_write(vm, offset, bytes).vms[other] == v.vms[other],
        v.after_file_write(vm, name, offset, bytes).vms[vm].memory == v.vms[vm].memory,
        v.after_memory_write(vm, offset, bytes).vms[vm].filesystem == v.vms[vm].filesystem,
{
}

/// A write replaces only the pages that it touches; each of those is a page that no VM had.
pub proof fn only_touched_pages_diverge(v: ForestView, vm: VmId, name: Seq<u8>, offset: u64, bytes: Seq<u8>, key: PageKey)
    requires
        v.wf(),
        v.write_ends(vm, offset as int, bytes.len() as int) is Ok,
    ensures
        ({
            let w = v.after_file_write(vm, name, offset as int, bytes).vms[vm].filesystem.pages;
            let was = v.vms[vm].filesystem.pages;
            if touched(key, name, offset as int, touched_pages(offset as int, bytes.len() as int)) {
                w.contains_key(key) && v.next_page <= w[key].id < v.next_page + touched_pages(offset as int, bytes.len() as int)
            } else {
                (w.contains_key(key) <==> was.contains_key(key)) && (was.contains_key(key) ==> w[key] == was[key])
            }
        }),
        ({
            let w = v.after_memory_write(vm, offset as int, bytes).vms[vm].memory.pages;
            let was = v.vms[vm].memory.pages;
            if touched(key, memory_name(), offset as int, touched_pages(offset as int, bytes.len() as int)) {
                w.contains_key(key) && v.next_page <= w[key].id < v.next_page + touched_pages(offset as int, bytes.len() as int)
            } else {
                (w.contains_key(key) <==> was.contains_key(key)) && (was.contains_key(key) ==> w[key] == was[key])
            }
        }),
{
    assert(v.vms[vm].filesystem.wf() && v.vms[vm].memory.wf());
}

/// A VM's memory and filesystem outlive every other VM: removing one changes no other.
pub proof fn removal_leaves_the_others(v: ForestView, gone: VmId, other: VmId)
    requires
        v.vms.contains_key(other),
        other != gone,
    ensures
        v.removed(gone).vms.contains_key(other),
        v.removed(gone).vms[other] == v.vms[other],
        !v.removed(gone).vms.contains_key(gone),
{
}

proof fn lemma_space_reads_back(s: SpaceView, name: Seq<u8>, offset: int, bytes: Seq<u8>, next: int, other: Seq<u8>, address: int)
    requires
        s.wf(),
        0 <= offset <= u64::MAX,
        write_result(offset, bytes.len() as int, next) is Ok,
        0 <= address <= u64::MAX,
    ensures
        s.after_write(name, offset, bytes, next).byte(other, address) == (if other == name && offset <= address < offset + bytes.len() {
            bytes[address - offset]
        } else {
            s.byte(other, address)
        }),
{
    let key: PageKey = (other, (address / 4096) as u64);
    let w = s.after_write(name, offset, bytes, next);
    let done = pages_written(offset, bytes.len() as int, next);
    assert(done == touched_pages(offset, bytes.len() as int));
    assert(key.1 * 4096 + address % 4096 == address);
    if touched(key, name, offset, done) {
        assert(w.pages[key] == w.own[key]);
    } else if s.own.contains_key(key) {
        assert(w.own[key] == s.own[key]);
    }
}

/// A supervisor's fork captures memory and files at one point: the child has the source's memory,
/// page for page, and sees every file as the source sees it, and the source keeps both.
pub proof fn supervised_fork_captures_both<S: ForkableNodeStore>(
    v: SupervisorView<Identity<S>>,
    source: VmId,
    child: VmId,
    node: NodeId,
    offset: u64,
)
    requires
        v.wf(),
        v.seats.contains_key(source),
        !v.seats.contains_key(child),
        v.cache_of(source).next_branch < u64::MAX,
    ensures
        ({
            let b = v.seats[source].branch;
            let w = SupervisorView {
                forest: v.forest.forked(source, child),
                seats: v.seats.insert(child, SeatView { cache: v.seats[source].cache, branch: v.cache_of(source).next_branch }),
                ..v.with_cache(source, cache_forked(v.cache_of(source), b))
            };
            &&& w.forest.vms[child].memory.pages == v.forest.vms[source].memory.pages
            &&& w.forest.vms[source].memory.pages == v.forest.vms[source].memory.pages
            &&& visible_page::<S>(w.cache_of(child), w.seats[child].branch, node, offset) == visible_page::<S>(v.cache_of(source), b, node, offset)
            &&& visible_page::<S>(w.cache_of(source), w.seats[source].branch, node, offset) == visible_page::<S>(v.cache_of(source), b, node, offset)
        }),
{
    fork_shows_the_source::<S>(v.cache_of(source), v.seats[source].branch, v.seats[source].branch, node, offset);
}

/// A write ends well if and only if the VM is there, its last byte has an address, and there are new
/// page numbers for all pages in which one of its bytes lies.
pub proof fn writes_fail_only_so(v: ForestView, vm: VmId, offset: u64, len: int)
    requires
        0 <= len,
    ensures
        ({
            let pages = if len == 0 { 0 } else { (offset + len - 1) / 4096 - offset as int / 4096 + 1 };
            &&& v.write_ends(vm, offset as int, len) is Ok <==> v.vms.contains_key(vm) && offset + len <= 0xffff_ffff_ffff_ffff && v.next_page + pages
                <= 0xffff_ffff_ffff_ffff
            &&& !v.vms.contains_key(vm) ==> v.write_ends(vm, offset as int, len) == Err::<(), Error>(Error::VmNotFound(vm))
            &&& v.vms.contains_key(vm) && offset + len > 0xffff_ffff_ffff_ffff ==> v.write_ends(vm, offset as int, len) == Err::<(), Error>(
                Error::RangeOverflow,
            )
        }),
{
}

/// A page of a file takes a new identity with a write if and only if one of the bytes written lies in it;
/// all other pages stay what they were, shared where they were shared. A write takes as many new page
/// numbers as it reaches pages.
pub proof fn written_pages_diverge(v: ForestView, vm: VmId, name: Seq<u8>, offset: u64, bytes: Seq<u8>, address: int, key: PageKey, other: VmId, k: PageKey)
    requires
        v.wf(),
        v.write_ends(vm, offset as int, bytes.len() as int) is Ok,
        v.vms.contains_key(other),
    ensures
        ({
            let after = v.after_file_write(vm, name, offset as int, bytes);
            let now = after.vms[vm].filesystem.pages;
            let was = v.vms[vm].filesystem.pages;
            let page: PageKey = (name, (address / 4096) as u64);
            &&& offset <= address < offset + bytes.len() ==> {
                &&& now.contains_key(page)
                &&& now[page].id >= v.next_page
                &&& now[page].id < after.next_page
                &&& v.vms[other].filesystem.pages.contains_key(k) ==> v.vms[other].filesystem.pages[k].id != now[page].id
            }
            &&& key.0 != name || key.1 * 4096 + 4096 <= offset || offset + bytes.len() <= key.1 * 4096 || bytes.len() == 0 ==> {
                &&& now.contains_key(key) <==> was.contains_key(key)
                &&& was.contains_key(key) ==> now[key] == was[key]
            }
        }),
        ({
            let after = v.after_memory_write(vm, offset as int, bytes);
            let now = after.vms[vm].memory.pages;
            let was = v.vms[vm].memory.pages;
            let page: PageKey = (memory_name(), (address / 4096) as u64);
            &&& offset <= address < offset + bytes.len() ==> {
                &&& now.contains_key(page)
                &&& now[page].id >= v.next_page
                &&& now[page].id < after.next_page
                &&& v.vms[other].memory.pages.contains_key(k) ==> v.vms[other].memory.pages[k].id != now[page].id
            }
            &&& key.1 * 4096 + 4096 <= offset || offset + bytes.len() <= key.1 * 4096 || bytes.len() == 0 ==> {
                &&& now.contains_key(key) <==> was.contains_key(key)
                &&& was.contains_key(key) ==> now[key] == was[key]
            }
        }),
        v.after_file_write(vm, name, offset as int, bytes).next_page == v.next_page + (if bytes.len() == 0 {
            0
        } else {
            (offset + bytes.len() - 1) / 4096 - offset as int / 4096 + 1
        }),
{
    let page: PageKey = (name, (address / 4096) as u64);
    let cell: PageKey = (memory_name(), (address / 4096) as u64);
    if offset <= address < offset + bytes.len() {
        assert(0 <= address / 4096 <= u64::MAX);
        assert(touched(page, name, offset as int, touched_pages(offset as int, bytes.len() as int)));
        assert(touched(cell, memory_name(), offset as int, touched_pages(offset as int, bytes.len() as int)));
        only_touched_pages_diverge(v, vm, name, offset, bytes, page);
        only_touched_pages_diverge(v, vm, name, offset, bytes, cell);
    }
    if key.1 * 4096 + 4096 <= offset || offset + bytes.len() <= key.1 * 4096 || bytes.len() == 0 {
        assert(!touched(key, key.0, offset as int, touched_pages(offset as int, bytes.len() as int)));
    }
    only_touched_pages_diverge(v, vm, name, offset, bytes, key);
    if v.vms[other].filesystem.pages.contains_key(k) {
        crate::fork::forest::lemma_visible_is_retained(v.vms[other].filesystem, k);
        assert(v.vms[other].filesystem.retained.contains(v.vms[other].filesystem.pages[k].id));
    }
    if v.vms[other].memory.pages.contains_key(k) {
        crate::fork::forest::lemma_visible_is_retained(v.vms[other].memory, k);
        assert(v.vms[other].memory.retained.contains(v.vms[other].memory.pages[k].id));
    }
}

/// A new VM reads zeros everywhere, in memory and in every file.
pub proof fn new_vm_reads_zeros(v: ForestView, id: VmId, name: Seq<u8>, address: int)
    requires
        0 <= address <= u64::MAX,
    ensures
        ({
            let vm = v.created(id).vms[id];
            &&& vm.memory.byte(memory_name(), address) == 0
            &&& vm.filesystem.byte(name, address) == 0
            &&& v.created(id).vms.remove(id) == v.vms.remove(id)
            &&& v.created(id).next_page == v.next_page
        }),
{
    assert(v.created(id).vms.remove(id) =~= v.vms.remove(id));
}

/// A write that is refused for its range changes nothing.
pub proof fn refused_writes_change_nothing(v: ForestView, vm: VmId, name: Seq<u8>, offset: u64, bytes: Seq<u8>, address: int)
    requires
        v.wf(),
        v.vms.contains_key(vm),
        offset + bytes.len() > u64::MAX,
        0 <= address <= u64::MAX,
    ensures
        v.after_file_write(vm, name, offset as int, bytes).vms[vm].filesystem.byte(name, address) == v.vms[vm].filesystem.byte(name, address),
        v.after_memory_write(vm, offset as int, bytes).vms[vm].memory.byte(memory_name(), address) == v.vms[vm].memory.byte(memory_name(), address),
        v.after_file_write(vm, name, offset as int, bytes).next_page == v.next_page,
        v.after_memory_write(vm, offset as int, bytes).next_page == v.next_page,
{
    let file = v.vms[vm].filesystem;
    let memory = v.vms[vm].memory;
    let key: PageKey = (name, (address / 4096) as u64);
    let cell: PageKey = (memory_name(), (address / 4096) as u64);
    assert(file.after_write(name, offset as int, bytes, v.next_page as int).pages.contains_key(key) <==> file.pages.contains_key(key));
    assert(memory.after_write(memory_name(), offset as int, bytes, v.next_page as int).pages.contains_key(cell) <==> memory.pages.contains_key(cell));
}

/// A page counts as shared if and only if two different VMs have a page with its identity, and as
/// resident if and only if some VM keeps it. So the pages of a single VM are not shared.
pub proof fn sharing_takes_two(v: ForestView, kind: Space, id: u64, only: VmId)
    ensures
        v.shared(kind).contains(id) <==> exists|a: VmId, b: VmId, j: PageKey, k: PageKey|
            {
                &&& a != b
                &&& #[trigger] has_page(v, a, kind, j, id)
                &&& #[trigger] has_page(v, b, kind, k, id)
            },
        v.resident(kind).contains(id) <==> exists|vm: VmId| #[trigger] v.vms.contains_key(vm) && v.vms[vm].space(kind).retained.contains(id),
        (forall|vm: VmId| #[trigger] v.vms.contains_key(vm) ==> vm == only) ==> !v.shared(kind).contains(id),
{
    if v.shared(kind).contains(id) {
        let (a, b) = choose|a: VmId, b: VmId|
            a != b && v.vms.contains_key(a) && v.vms.contains_key(b) && page_ids((#[trigger] v.vms[a]).space(kind).pages).contains(id) && page_ids(
                (#[trigger] v.vms[b]).space(kind).pages,
            ).contains(id);
        let one = v.vms[a].space(kind).pages;
        let two = v.vms[b].space(kind).pages;
        let j = choose|j: PageKey| one.contains_key(j) && (#[trigger] one[j]).id == id;
        let k = choose|k: PageKey| two.contains_key(k) && (#[trigger] two[k]).id == id;
        assert(has_page(v, a, kind, j, id));
        assert(has_page(v, b, kind, k, id));
    }
    if exists|a: VmId, b: VmId, j: PageKey, k: PageKey|
        {
            &&& a != b
            &&& #[trigger] has_page(v, a, kind, j, id)
            &&& #[trigger] has_page(v, b, kind, k, id)
        } {
        let (a, b, j, k) = choose|a: VmId, b: VmId, j: PageKey, k: PageKey|
            {
                &&& a != b
                &&& #[trigger] has_page(v, a, kind, j, id)
                &&& #[trigger] has_page(v, b, kind, k, id)
            };
        let one = v.vms[a].space(kind).pages;
        let two = v.vms[b].space(kind).pages;
        assert(one[j].id == id && two[k].id == id);
        assert(page_ids(one).contains(id) && page_ids(two).contains(id));
    }
    if v.resident(kind).contains(id) {
        let vm = choose|vm: VmId| v.vms.contains_key(vm) && (#[trigger] v.vms[vm]).space(kind).retained.contains(id);
        assert(v.vms.contains_key(vm));
    }
    if exists|vm: VmId| #[trigger] v.vms.contains_key(vm) && v.vms[vm].space(kind).retained.contains(id) {
        let vm = choose|vm: VmId| #[trigger] v.vms.contains_key(vm) && v.vms[vm].space(kind).retained.contains(id);
        assert(v.vms[vm].space(kind).retained.contains(id));
    }
}

/// Whether a VM has a page with the identity.
pub open spec fn has_page(v: ForestView, vm: VmId, kind: Space, key: PageKey, id: u64) -> bool {
    let pages = match kind {
        Space::Memory => v.vms[vm].memory.pages,
        Space::Filesystem => v.vms[vm].filesystem.pages,
    };
    v.vms.contains_key(vm) && pages.contains_key(key) && pages[key].id == id
}

/// After a VM writes to a page, the page it then has is its own: no other VM has it.
pub proof fn written_pages_are_not_shared(v: ForestView, vm: VmId, name: Seq<u8>, offset: u64, bytes: Seq<u8>, address: int)
    requires
        v.wf(),
        v.write_ends(vm, offset as int, bytes.len() as int) is Ok,
        offset <= address < offset + bytes.len(),
    ensures
        ({
            let after = v.after_file_write(vm, name, offset as int, bytes);
            let page = after.vms[vm].filesystem.pages[(name, (address / 4096) as u64)];
            &&& !after.shared(Space::Filesystem).contains(page.id)
            &&& after.resident(Space::Filesystem).contains(page.id)
        }),
{
    let after = v.after_file_write(vm, name, offset as int, bytes);
    let key: PageKey = (name, (address / 4096) as u64);
    let id = after.vms[vm].filesystem.pages[key].id;
    written_pages_diverge(v, vm, name, offset, bytes, address, key, vm, key);
    sharing_takes_two(after, Space::Filesystem, id, vm);
    if after.shared(Space::Filesystem).contains(id) {
        let (a, b, j, k) = choose|a: VmId, b: VmId, j: PageKey, k: PageKey|
            {
                &&& a != b
                &&& #[trigger] has_page(after, a, Space::Filesystem, j, id)
                &&& #[trigger] has_page(after, b, Space::Filesystem, k, id)
            };
        if a != vm {
            written_pages_diverge(v, vm, name, offset, bytes, address, key, a, j);
        } else {
            written_pages_diverge(v, vm, name, offset, bytes, address, key, b, k);
        }
    }
    let own = after.vms[vm].filesystem.own;
    assert(touched(key, name, offset as int, touched_pages(offset as int, bytes.len() as int)));
    assert(own.contains_key(key) && own[key].id == id);
    assert(page_ids(own).contains(id));
    assert(after.vms[vm].space(Space::Filesystem).retained.contains(id));
}

/// Removing a VM from a supervisor leaves every other VM its memory, its branch and all that it sees of
/// its files. The cache of the removed VM goes with it just where no other VM uses it.
pub proof fn supervised_removal_leaves_the_others<S: ForkableNodeStore>(
    v: SupervisorView<Identity<S>>,
    gone: VmId,
    vm: VmId,
    node: NodeId,
    offset: u64,
)
    requires
        v.wf(),
        v.seats.contains_key(gone),
        v.seats.contains_key(vm),
        gone != vm,
        all_known::<S>(v.cache_of(vm)),
        page_start(offset),
    ensures
        ({
            let w = vm_removed::<S>(v, gone);
            &&& !w.seats.contains_key(gone) && !w.forest.vms.contains_key(gone)
            &&& w.seats.contains_key(vm) && w.seats[vm] == v.seats[vm]
            &&& w.forest.vms[vm] == v.forest.vms[vm]
            &&& w.filesystems.contains_key(v.seats[vm].cache)
            &&& visible_page::<S>(w.cache_of(vm), v.seats[vm].branch, node, offset) == visible_page::<S>(v.cache_of(vm), v.seats[vm].branch, node, offset)
            &&& w.filesystems.contains_key(v.seats[gone].cache) <==> exists|other: VmId| #[trigger]
                v.seats.contains_key(other) && other != gone && v.seats[other].cache == v.seats[gone].cache
            &&& w.filesystems.contains_key(v.seats[gone].cache) ==> !w.filesystems[v.seats[gone].cache].branches.contains_key(v.seats[gone].branch)
        }),
{
    let w = vm_removed::<S>(v, gone);
    let cache = v.seats[gone].cache;
    let rest = SupervisorView { forest: v.forest.removed(gone), seats: v.seats.remove(gone), ..v };
    assert(v.seats[gone] != v.seats[vm]);
    assert(v.forest.vms.contains_key(vm)) by {
        assert(v.seats.dom().contains(vm));
    }
    if exists|other: VmId| #[trigger] v.seats.contains_key(other) && other != gone && v.seats[other].cache == cache {
        let other = choose|other: VmId| #[trigger] v.seats.contains_key(other) && other != gone && v.seats[other].cache == cache;
        assert(rest.seats.contains_key(other));
    }
    if cache_used(rest, cache) {
        let other = choose|other: VmId| #[trigger] rest.seats.contains_key(other) && rest.seats[other].cache == cache;
        assert(v.seats.contains_key(other));
    }
    if v.seats[vm].cache == cache {
        assert(rest.seats.contains_key(vm));
        removal_leaves_every_page::<S>(v.cache_of(vm), v.seats[gone].branch, v.seats[vm].branch, node, offset);
    }
}

/// The branches that VMs are counted with in a cache are those of the VMs that use it.
pub proof fn counted_branches_are_the_seats<I>(v: SupervisorView<I>, vms: Seq<VmId>, cache: u64, b: u64)
    ensures
        branches_in(v, vms, cache).contains(b) <==> exists|i: int| 0 <= i < vms.len() && v.seats[#[trigger] vms[i]] == (SeatView { cache, branch: b }),
        branches_in(v, vms, cache).len() <= vms.len(),
    decreases vms.len(),
{
    if vms.len() > 0 {
        let rest = vms.drop_last();
        counted_branches_are_the_seats(v, rest, cache, b);
        let before = branches_in(v, rest, cache);
        let after = branches_in(v, vms, cache);
        let last = v.seats[vms.last()];
        assert(vms.last() == vms[vms.len() - 1]);
        if before.contains(b) {
            let i = choose|i: int| 0 <= i < rest.len() && v.seats[#[trigger] rest[i]] == (SeatView { cache, branch: b });
            assert(vms[i] == rest[i]);
            let k = choose|k: int| 0 <= k < before.len() && before[k] == b;
            assert(after[k] == b);
        }
        if last.cache == cache && last.branch == b {
            assert(after[before.len() as int] == b);
        }
        if after.contains(b) && !before.contains(b) {
            let k = choose|k: int| 0 <= k < after.len() && after[k] == b;
            if k < before.len() {
                assert(before[k] == b);
            }
        }
        if exists|i: int| 0 <= i < vms.len() && v.seats[#[trigger] vms[i]] == (SeatView { cache, branch: b }) {
            let i = choose|i: int| 0 <= i < vms.len() && v.seats[#[trigger] vms[i]] == (SeatView { cache, branch: b });
            if i < rest.len() {
                assert(rest[i] == vms[i]);
            }
        }
    }
}

/// Whatever is done, a forest stays sound: identities stand for one place and one contents, they and the
/// numbers of VMs are never given out twice, and each VM keeps every page that it sees.
pub proof fn forest_stays_sound(v: ForestView, vm: VmId, new: VmId, name: Seq<u8>, offset: u64, bytes: Seq<u8>)
    requires
        v.wf(),
        v.vms.contains_key(vm),
        v.next_vm < u64::MAX,
        new.number() == v.next_vm,
    ensures
        v.created(new).wf(),
        v.created(new).next_vm > new.number(),
        v.forked(vm, new).wf(),
        v.forked(vm, new).next_vm > new.number(),
        v.removed(vm).wf(),
        v.after_file_write(vm, name, offset as int, bytes).wf(),
        v.after_memory_write(vm, offset as int, bytes).wf(),
        !v.vms.contains_key(new),
{
    lemma_created_wf(v, new);
    lemma_forked_wf(v, vm, new);
    lemma_file_write_wf(v, vm, name, offset as int, bytes);
    lemma_memory_write_wf(v, vm, offset as int, bytes);
}

/// After a fork neither of the two has a page of its own. Whatever is written then, to memory or to a
/// file, all that was resident at the fork stays resident; what was written since and is written again is
/// given up.
pub proof fn forked_pages_stay_resident(v: ForestView, source: VmId, child: VmId, kind: Space, name: Seq<u8>, offset: u64, bytes: Seq<u8>, next: u64, id: u64)
    requires
        v.vms.contains_key(source),
    ensures
        ({
            let w = v.forked(source, child);
            let was = v.vms[source].space(kind);
            let now = w.vms[source].space(kind);
            let written = now.after_write(name, offset as int, bytes, next as int);
            &&& now == w.vms[child].space(kind)
            &&& forall|k: PageKey| !now.own.contains_key(k)
            &&& was.retained.contains(id) ==> now.retained.contains(id) && written.retained.contains(id)
            &&& written.retained.contains(id) ==> was.retained.contains(id) || exists|k: PageKey| #[trigger] written.own.contains_key(k) && written.own[k].id == id
        }),
        ({
            let space = v.vms[source].space(kind);
            let written = space.after_write(name, offset as int, bytes, next as int);
            &&& written.sealed == space.sealed
            &&& written.retained.contains(id) <==> space.sealed.contains(id) || exists|k: PageKey| #[trigger]
                written.own.contains_key(k) && written.own[k].id == id
        }),
{
    let now = v.forked(source, child).vms[source].space(kind);
    let own = now.after_write(name, offset as int, bytes, next as int).own;
    if page_ids(own).contains(id) {
        let k = choose|k: PageKey| own.contains_key(k) && (#[trigger] own[k]).id == id;
        assert(own.contains_key(k));
    }
    let space = v.vms[source].space(kind);
    let mine = space.after_write(name, offset as int, bytes, next as int).own;
    if page_ids(mine).contains(id) {
        let k = choose|k: PageKey| mine.contains_key(k) && (#[trigger] mine[k]).id == id;
        assert(mine.contains_key(k));
    }
}

/// The pages of a write are numbered in order: the first gets the next number, each further page one more.
pub proof fn written_pages_are_numbered_in_order(v: ForestView, vm: VmId, name: Seq<u8>, offset: u64, bytes: Seq<u8>, page: u64)
    requires
        v.wf(),
        v.write_ends(vm, offset as int, bytes.len() as int) is Ok,
        bytes.len() > 0,
        page * 4096 < offset + bytes.len(),
        offset < page * 4096 + 4096,
    ensures
        ({
            let files = v.after_file_write(vm, name, offset as int, bytes).vms[vm].filesystem.pages;
            let memory = v.after_memory_write(vm, offset as int, bytes).vms[vm].memory.pages;
            let cell = memory_name();
            &&& page * 4096 <= offset ==> files[(name, page)].id == v.next_page && memory[(cell, page)].id == v.next_page
            &&& page * 4096 > offset ==> {
                &&& files[(name, page)].id == files[(name, (page - 1) as u64)].id + 1
                &&& memory[(cell, page)].id == memory[(cell, (page - 1) as u64)].id + 1
            }
        }),
{
    let done = touched_pages(offset as int, bytes.len() as int);
    let cell = memory_name();
    assert(touched((name, page), name, offset as int, done));
    assert(touched((cell, page), cell, offset as int, done));
    let files = v.after_file_write(vm, name, offset as int, bytes).vms[vm].filesystem;
    let memory = v.after_memory_write(vm, offset as int, bytes).vms[vm].memory;
    assert(files.own.contains_key((name, page)) && memory.own.contains_key((cell, page)));
    if page * 4096 > offset {
        let before = (page - 1) as u64;
        assert(touched((name, before), name, offset as int, done));
        assert(touched((cell, before), cell, offset as int, done));
        assert(files.own.contains_key((name, before)) && memory.own.contains_key((cell, before)));
    }
}

/// A write that runs out of page numbers has written as many pages as there were numbers for, from its
/// first on, and nothing further; no number is left.
pub proof fn broken_off_writes_stand_so_far(v: ForestView, vm: VmId, name: Seq<u8>, offset: u64, bytes: Seq<u8>, address: u64)
    requires
        v.wf(),
        v.vms.contains_key(vm),
        v.write_ends(vm, offset as int, bytes.len() as int) == Err::<(), Error>(Error::PageIdOverflow),
    ensures
        ({
            let after = v.after_file_write(vm, name, offset as int, bytes);
            let memory = v.after_memory_write(vm, offset as int, bytes);
            let done = offset <= address < offset + bytes.len() && address as int / 4096 - offset as int / 4096 < u64::MAX - v.next_page;
            &&& after.next_page == u64::MAX && memory.next_page == u64::MAX
            &&& after.vms[vm].filesystem.byte(name, address as int) == (if done {
                bytes[address - offset]
            } else {
                v.vms[vm].filesystem.byte(name, address as int)
            })
            &&& memory.vms[vm].memory.byte(memory_name(), address as int) == (if done {
                bytes[address - offset]
            } else {
                v.vms[vm].memory.byte(memory_name(), address as int)
            })
        }),
{
    lemma_space_written_so_far(v.vms[vm].filesystem, name, offset as int, bytes, v.next_page as int, address as int);
    lemma_space_written_so_far(v.vms[vm].memory, memory_name(), offset as int, bytes, v.next_page as int, address as int);
}

proof fn lemma_space_written_so_far(s: SpaceView, name: Seq<u8>, offset: int, bytes: Seq<u8>, next: int, address: int)
    requires
        s.wf(),
        0 <= offset <= u64::MAX,
        0 <= next <= u64::MAX,
        offset + bytes.len() <= u64::MAX,
        touched_pages(offset, bytes.len() as int) > u64::MAX - next,
        0 <= address <= u64::MAX,
    ensures
        s.after_write(name, offset, bytes, next).byte(name, address) == (if offset <= address < offset + bytes.len() && address / 4096 - offset / 4096
            < u64::MAX - next {
            bytes[address - offset]
        } else {
            s.byte(name, address)
        }),
{
    let key: PageKey = (name, (address / 4096) as u64);
    let w = s.after_write(name, offset, bytes, next);
    let done = pages_written(offset, bytes.len() as int, next);
    assert(done == u64::MAX - next);
    assert(key.1 * 4096 + address % 4096 == address);
    if touched(key, name, offset, done) {
        assert(w.pages[key] == w.own[key]);
    } else if s.own.contains_key(key) {
        assert(w.own[key] == s.own[key]);
    }
}

/// The pages of files are counted cache by cache: in each, a page counts once if the branch of some VM
/// shows it, and as shared if the branches of two VMs do.
pub proof fn file_pages_are_counted_by_cache<S: ForkableNodeStore>(v: SupervisorView<Identity<S>>, vms: Seq<VmId>, caches: Seq<u64>, cache: u64)
    ensures
        resident_in::<S>(v, vms, Seq::empty()) == 0,
        shared_in::<S>(v, vms, Seq::empty()) == 0,
        resident_in::<S>(v, vms, caches.push(cache)) == resident_in::<S>(v, vms, caches) + shown_in::<S>(v, vms, cache).len(),
        shared_in::<S>(v, vms, caches.push(cache)) == shared_in::<S>(v, vms, caches) + shown_twice_in::<S>(v, vms, cache).len(),
{
    let branches = branches_in(v, vms, cache);
    let sets = pages_of_vms::<S>(v, vms, cache);
    assert(caches.push(cache).drop_last() =~= caches);
    assert(held(sets) =~= shown_in::<S>(v, vms, cache)) by {
        assert forall|page: u64| #[trigger] held(sets).contains(page) <==> shown_in::<S>(v, vms, cache).contains(page) by {
            lemma_held(sets, page);
            if held(sets).contains(page) {
                let i = choose|i: int| 0 <= i < sets.len() && (#[trigger] sets[i]).contains(page);
                assert(branch_pages::<S>(v.filesystems[cache], branches[i]).contains(page));
            }
            if shown_in::<S>(v, vms, cache).contains(page) {
                let i = choose|i: int| 0 <= i < branches.len() && branch_pages::<S>(v.filesystems[cache], #[trigger] branches[i]).contains(page);
                assert(sets[i].contains(page));
            }
        }
    }
    assert(held_twice(sets) =~= shown_twice_in::<S>(v, vms, cache)) by {
        assert forall|page: u64| #[trigger] held_twice(sets).contains(page) <==> shown_twice_in::<S>(v, vms, cache).contains(page) by {
            lemma_held_twice(sets, page);
            if held_twice(sets).contains(page) {
                let (i, j) = choose|i: int, j: int|
                    0 <= i < j < sets.len() && (#[trigger] sets[i]).contains(page) && (#[trigger] sets[j]).contains(page);
                assert(branch_pages::<S>(v.filesystems[cache], branches[i]).contains(page));
                assert(branch_pages::<S>(v.filesystems[cache], branches[j]).contains(page));
            }
            if shown_twice_in::<S>(v, vms, cache).contains(page) {
                let (i, j) = choose|i: int, j: int|
                    {
                        &&& 0 <= i < j < branches.len()
                        &&& branch_pages::<S>(v.filesystems[cache], #[trigger] branches[i]).contains(page)
                        &&& branch_pages::<S>(v.filesystems[cache], #[trigger] branches[j]).contains(page)
                    };
                assert(sets[i].contains(page) && sets[j].contains(page));
            }
        }
    }
}

/// The pages of a cache that the branches of the VMs show.
pub open spec fn shown_in<S: ForkableNodeStore>(v: SupervisorView<Identity<S>>, vms: Seq<VmId>, cache: u64) -> Set<u64> {
    let branches = branches_in(v, vms, cache);
    Set::new(
        |page: u64|
            exists|i: int| 0 <= i < branches.len() && branch_pages::<S>(v.filesystems[cache], #[trigger] branches[i]).contains(page),
    )
}

/// The pages of a cache that the branches of two VMs show.
pub open spec fn shown_twice_in<S: ForkableNodeStore>(v: SupervisorView<Identity<S>>, vms: Seq<VmId>, cache: u64) -> Set<u64> {
    let branches = branches_in(v, vms, cache);
    Set::new(
        |page: u64|
            exists|i: int, j: int|
                {
                    &&& 0 <= i < j < branches.len()
                    &&& branch_pages::<S>(v.filesystems[cache], #[trigger] branches[i]).contains(page)
                    &&& branch_pages::<S>(v.filesystems[cache], #[trigger] branches[j]).contains(page)
                },
    )
}

/// Opening a node counts it once more for its branch; closing it again brings the count back. Neither
/// touches another node, another branch or a page, and a node's contents go only with its last use.
pub proof fn nodes_are_counted_while_open<I>(v: CacheView<I>, w: CacheView<I>, b: u64, node: NodeId, count: usize, n: NodeId, x: u64)
    requires
        v.branches.contains_key(b),
        open_count(v.branches[b].open, node) < usize::MAX,
    ensures
        ({
            let opened = node_opened(v, b, node);
            &&& open_count(opened.branches[b].open, node) == open_count(v.branches[b].open, node) + 1
            &&& n != node ==> open_count(opened.branches[b].open, n) == open_count(v.branches[b].open, n)
            &&& opened.branches[b].nodes == v.branches[b].nodes
            &&& x != b && v.branches.contains_key(x) ==> opened.branches[x] == v.branches[x]
            &&& opened.pages == v.pages && opened.frames == v.frames && opened.known == v.known
        }),
        node_closed(v, w, b, node, count) ==> {
            &&& open_count(w.branches[b].open, node) == count
            &&& n != node ==> open_count(w.branches[b].open, n) == open_count(v.branches[b].open, n)
            &&& n != node || count > 0 ==> {
                &&& w.branches[b].nodes.contains_key(n) <==> v.branches[b].nodes.contains_key(n)
                &&& v.branches[b].nodes.contains_key(n) ==> w.branches[b].nodes[n] == v.branches[b].nodes[n]
            }
            &&& w.branches[b].dirty == v.branches[b].dirty && w.branches[b].active == v.branches[b].active
            &&& w.branches[b].exclusive == v.branches[b].exclusive
            &&& x != b && v.branches.contains_key(x) ==> w.branches[x] == v.branches[x]
            &&& w.pages == v.pages && w.frames == v.frames && w.known == v.known
        },
        node_closed(node_opened(v, b, node), w, b, node, open_count(v.branches[b].open, node)) ==> open_count(w.branches[b].open, n) == open_count(
            v.branches[b].open,
            n,
        ),
{
}

/// What is read of memory or of a file is its bytes, one for one, and what was written before is read
/// back.
pub proof fn reads_give_back_writes(v: ForestView, vm: VmId, name: Seq<u8>, offset: u64, bytes: Seq<u8>, address: u64, len: nat, i: int)
    requires
        v.wf(),
        v.vms.contains_key(vm),
        v.write_ends(vm, offset as int, bytes.len() as int) is Ok,
        address + len <= u64::MAX,
        0 <= i < len,
    ensures
        ({
            let space = v.vms[vm].filesystem;
            &&& space.read(name, address as int, len).len() == len
            &&& space.read(name, address as int, len)[i] == space.byte(name, address + i)
        }),
        v.after_file_write(vm, name, offset as int, bytes).vms[vm].filesystem.read(name, offset as int, bytes.len()) == bytes,
        v.after_memory_write(vm, offset as int, bytes).vms[vm].memory.read(memory_name(), offset as int, bytes.len()) == bytes,
{
    let next = v.next_page as int;
    let files = v.after_file_write(vm, name, offset as int, bytes).vms[vm].filesystem;
    let memory = v.after_memory_write(vm, offset as int, bytes).vms[vm].memory;
    assert forall|j: int| 0 <= j < bytes.len() implies #[trigger] files.read(name, offset as int, bytes.len())[j] == bytes[j] by {
        lemma_space_reads_back(v.vms[vm].filesystem, name, offset as int, bytes, next, name, offset + j);
    }
    assert forall|j: int| 0 <= j < bytes.len() implies #[trigger] memory.read(memory_name(), offset as int, bytes.len())[j] == bytes[j] by {
        lemma_space_reads_back(v.vms[vm].memory, memory_name(), offset as int, bytes, next, memory_name(), offset + j);
    }
    assert(files.read(name, offset as int, bytes.len()) =~= bytes);
    assert(memory.read(memory_name(), offset as int, bytes.len()) =~= bytes);
}

} // verus!
