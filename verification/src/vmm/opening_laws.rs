//! Laws of saving a forest and opening it again.

use vstd::prelude::*;

#[allow(unused_imports)]
use crate::ordered::{among, ascending, lemma_among};
use crate::vmm::checkpoint::CapturedGuest;
#[allow(unused_imports)]
use crate::vmm::checkpoint::saves;
use crate::vmm::devices::{FsConfig, InProcessFilesystem};
#[allow(unused_imports)]
use crate::vmm::devices::{places_fit, retargeted, served_in_process};
use crate::vmm::opening::{OpeningView, VmManifest};
#[allow(unused_imports)]
use crate::vmm::opening::{
    attachable, attached, entered, guests, guests_find_their_filesystems, kind_of, lineage_restored, lineages_of, least, lists_lineages, members_of,
    open_continued, placed, rams_found, DurableBackend, OpenStage,
};
use crate::vmm::ram::RamView;
use crate::vmm::supervisor::{BackendKind, GuestView, KvmVmId};

verus! {

/// The places of the devices that are served in this process are places of devices, and there is
/// such a device at each of them.
proof fn lemma_served_in_process(devices: Seq<FsConfig>, n: int)
    requires
        0 <= n <= devices.len() <= usize::MAX,
    ensures
        places_fit(served_in_process(devices, n), n as nat),
        forall|i: int| 0 <= i < n ==> (#[trigger] served_in_process(devices, n).contains(i as usize) <==> devices[i].in_process_backend_id is Some),
    decreases n,
{
    if n > 0 {
        lemma_served_in_process(devices, n - 1);
        let before = served_in_process(devices, n - 1);
        let after = served_in_process(devices, n);
        assert forall|i: int| 0 <= i < n implies (#[trigger] after.contains(i as usize) <==> devices[i].in_process_backend_id is Some) by {
            if after.contains(i as usize) {
                let k = choose|k: int| 0 <= k < after.len() && after[k] == i as usize;
                if i < n - 1 {
                    assert(before[k] == i as usize);
                    assert(before.contains(i as usize));
                }
            }
            if i < n - 1 && devices[i].in_process_backend_id is Some {
                assert(before.contains(i as usize));
                let k = choose|k: int| 0 <= k < before.len() && before[k] == i as usize;
                assert(after[k] == i as usize);
            }
            if i == n - 1 && devices[i].in_process_backend_id is Some {
                assert(after[after.len() - 1] == i as usize);
            }
        }
    }
}

proof fn lemma_saved_attachable(id: KvmVmId, kind: BackendKind, captured: CapturedGuest, vm: VmManifest)
    requires
        saves(id, kind, captured, vm),
    ensures
        attachable(vm.backend),
{
    if kind is Cloud {
        if let Some(devices) = captured.devices {
            assert(devices@.len() == devices.len());
            lemma_served_in_process(devices@, devices@.len() as int);
        }
    }
}

/// A guest that was saved can be opened: its devices are where they were. Those that were served in
/// the saving process, and no others, are handed to the filesystem that was read back.
pub proof fn saved_devices_are_found_again(
    id: KvmVmId,
    kind: BackendKind,
    captured: CapturedGuest,
    vm: VmManifest,
    filesystem: InProcessFilesystem,
    opened: VmManifest,
)
    requires
        saves(id, kind, captured, vm),
        attached(vm, filesystem, opened),
    ensures
        attachable(vm.backend),
        opened.id == id.number(),
        opened.lineage == captured.lineage,
        kind_of(opened.backend) == kind,
        kind is Cloud ==> match (captured.devices, opened.backend->devices) {
            (Some(before), Some(after)) => after@ == retargeted(before@, filesystem.backend_id, filesystem.dax_window_size),
            (None, None) => true,
            _ => false,
        },
{
    lemma_saved_attachable(id, kind, captured, vm);
    if kind is Cloud {
        if let Some(before) = captured.devices {
            assert(before@.len() == before.len());
            lemma_served_in_process(before@, before@.len() as int);
        }
    }
}

/// Whether nothing has failed and nothing is missing so far.
pub open spec fn on_course(v: OpeningView) -> bool {
    let n = v.vms.len();
    &&& v.failure is None
    &&& v.filesystems.len() == n <= usize::MAX
    &&& v.lineages.len() <= usize::MAX
    &&& lists_lineages(v.lineages, lineages_of(v.vms))
    &&& forall|i: int| 0 <= i < n ==> attachable((#[trigger] v.vms[i]).backend)
    &&& match v.stage {
        OpenStage::CreateHypervisor => true,
        OpenStage::RestoreRams => true,
        OpenStage::RestoreLineage(g) => v.rams.len() == n && g < v.lineages.len() && found_before(v, g as int),
        OpenStage::CreateVm(i) => v.rams.len() == n && i < n && v.found(n as int),
        OpenStage::RegisterRam(i) => v.rams.len() == n && i < n && v.found(n as int),
        OpenStage::StartWorker(i) => v.rams.len() == n && i < n && v.found(n as int),
        OpenStage::RestoreState(i) => v.rams.len() == n && i < n && v.found(n as int),
        OpenStage::BeginTracking(i) => v.rams.len() == n && i < n && v.found(n as int),
        OpenStage::ResumeVm(i) => v.rams.len() == n && i < n && v.found(n as int),
        OpenStage::Done => v.rams.len() == n && v.found(n as int),
    }
}

/// Whether the guests of the first `g` lineages have their filesystems.
pub open spec fn found_before(v: OpeningView, g: int) -> bool {
    forall|i: int, j: int|
        #![trigger v.filesystems[i], v.lineages[j]]
        0 <= i < v.vms.len() && 0 <= j < g && v.vms[i].lineage == v.lineages[j] ==> v.filesystems[i] is Some
}

/// Whether two lists hold the same guests in the same places.
pub open spec fn same_guests(a: Seq<VmManifest>, b: Seq<VmManifest>) -> bool {
    &&& a.len() == b.len()
    &&& forall|i: int| 0 <= i < a.len() ==> (#[trigger] a[i]).id == b[i].id && a[i].lineage == b[i].lineage && kind_of(a[i].backend) == kind_of(
        b[i].backend,
    )
}

/// Whether `after` comes of an operation that succeeded; reading RAM back gives the RAM of each guest,
/// and reading a lineage back a filesystem for each guest of it.
pub open spec fn went_well(before: OpeningView, after: OpeningView) -> bool {
    match before.stage {
        OpenStage::RestoreRams => exists|rams: Seq<RamView>| #[trigger] rams_found(before, rams, after) && rams.len() == before.vms.len(),
        OpenStage::RestoreLineage(g) => exists|restored: Seq<InProcessFilesystem>|
            {
                &&& #[trigger] lineage_restored(before, g as int, restored, after)
                &&& restored.len() == members_of(lineages_of(before.vms), before.lineages[g as int], before.vms.len() as int).len()
            },
        _ => open_continued(before, after),
    }
}

/// How many operations can still come.
pub open spec fn open_rest(v: OpeningView) -> int {
    let n = v.vms.len() as int;
    match v.stage {
        OpenStage::CreateHypervisor => 5 * n + v.lineages.len() + 2,
        OpenStage::RestoreRams => 5 * n + v.lineages.len() + 1,
        OpenStage::RestoreLineage(g) => 5 * n + v.lineages.len() - g,
        OpenStage::CreateVm(i) => 5 * (n - i),
        OpenStage::RegisterRam(i) => 5 * (n - i) - 1,
        OpenStage::StartWorker(i) => 5 * (n - i),
        OpenStage::RestoreState(i) => 5 * (n - i) - 1,
        OpenStage::BeginTracking(i) => 5 * (n - i) - 2,
        OpenStage::ResumeVm(i) => 5 * (n - i) - 3,
        OpenStage::Done => 0,
    }
}

/// Turning to a guest that has its filesystem keeps the opening on its course.
proof fn lemma_entered(before: OpeningView, i: int, after: OpeningView)
    requires
        before.failure is None,
        before.filesystems.len() == before.vms.len() <= usize::MAX,
        before.lineages.len() <= usize::MAX,
        lists_lineages(before.lineages, lineages_of(before.vms)),
        forall|i: int| 0 <= i < before.vms.len() ==> attachable((#[trigger] before.vms[i]).backend),
        before.rams.len() == before.vms.len(),
        before.found(before.vms.len() as int),
        0 <= i,
        entered(before, i, after),
    ensures
        on_course(after),
        same_guests(before.vms, after.vms),
        after.lineages == before.lineages,
        open_rest(after) <= 5 * (before.vms.len() - i) || after.stage is Done,
{
    if i < before.vms.len() {
        assert(before.filesystems[i] is Some);
        assert(attachable(before.vms[i].backend));
        assert(attachable(after.vms[i].backend));
        assert(lineages_of(after.vms) =~= lineages_of(before.vms));
    }
}

/// An opening fails only where an operation fails or a lineage gives back too few filesystems: as
/// long as all goes well, each guest finds its filesystem and its devices. The guests stay what they
/// are, and every opening comes to an end.
pub proof fn opening_stays_on_course(before: OpeningView, after: OpeningView)
    requires
        on_course(before),
        went_well(before, after),
    ensures
        on_course(after),
        same_guests(before.vms, after.vms),
        !(before.stage is Done) ==> 0 <= open_rest(after) < open_rest(before),
{
    match before.stage {
        OpenStage::RestoreLineage(g) => {
            let restored = choose|restored: Seq<InProcessFilesystem>|
                {
                    &&& #[trigger] lineage_restored(before, g as int, restored, after)
                    &&& restored.len() == members_of(lineages_of(before.vms), before.lineages[g as int], before.vms.len() as int).len()
                };
            let lineages = lineages_of(before.vms);
            let lineage = before.lineages[g as int];
            let members = members_of(lineages, lineage, before.vms.len() as int);
            guests_find_their_filesystems(before.filesystems, lineages, lineage, restored);
            let with = OpeningView {
                filesystems: placed(before.filesystems, members, restored, least(members.len(), restored.len()) as int),
                ..before
            };
            assert forall|i: int, j: int|
                #![trigger with.filesystems[i], with.lineages[j]]
                0 <= i < with.vms.len() && 0 <= j < g + 1 && with.vms[i].lineage == with.lineages[j] implies with.filesystems[i] is Some by {
                assert(lineages[i] == with.vms[i].lineage);
                if lineages[i] != lineage {
                    assert(before.filesystems[i] is Some);
                }
            }
            assert(found_before(with, g + 1));
            if g + 1 >= before.lineages.len() {
                assert forall|i: int| 0 <= i < with.vms.len() implies #[trigger] with.filesystems[i] is Some by {
                    assert(lineages[i] == with.vms[i].lineage);
                    assert(lineages.contains(lineages[i]));
                    assert(before.lineages.contains(lineages[i]));
                    let j = choose|j: int| 0 <= j < before.lineages.len() && before.lineages[j] == lineages[i];
                    assert(with.lineages[j] == with.vms[i].lineage);
                }
                lemma_entered(with, 0, after);
            }
        },
        OpenStage::RestoreRams => if before.lineages.len() == 0 {
            let rams = choose|rams: Seq<RamView>| #[trigger] rams_found(before, rams, after) && rams.len() == before.vms.len();
            if before.vms.len() > 0 {
                assert(lineages_of(before.vms).contains(lineages_of(before.vms)[0]));
                assert(before.lineages.contains(lineages_of(before.vms)[0]));
            }
            lemma_entered(OpeningView { rams, ..before }, 0, after);
        },
        OpenStage::RegisterRam(i) => {
            lemma_entered(before, i + 1, after);
        },
        OpenStage::ResumeVm(i) => {
            lemma_entered(before, i + 1, after);
        },
        _ => {},
    }
}

/// Whether the `k`th operation of an opening went well.
pub open spec fn step_went_well(run: Seq<OpeningView>, k: int) -> bool {
    went_well(run[k], run[k + 1])
}

/// Whether an opening begins with what was saved of these guests.
pub open spec fn opens(ids: Seq<KvmVmId>, forest: Map<u64, GuestView>, captured: Seq<CapturedGuest>, first: OpeningView) -> bool {
    &&& first.vms.len() == ids.len() == captured.len() <= usize::MAX
    &&& forall|i: int| 0 <= i < ids.len() ==> #[trigger] saves(ids[i], forest[ids[i].number()].kind, captured[i], first.vms[i])
    &&& lists_lineages(first.lineages, lineages_of(first.vms))
    &&& first.lineages.len() <= usize::MAX
    &&& first.filesystems.len() == ids.len()
    &&& first.stage is CreateHypervisor
    &&& first.failure is None
}

proof fn lemma_run(run: Seq<OpeningView>, n: int)
    requires
        0 <= n < run.len(),
        on_course(run[0]),
        forall|k: int| 0 <= k < run.len() - 1 ==> #[trigger] step_went_well(run, k),
    ensures
        on_course(run[n]),
        same_guests(run[0].vms, run[n].vms),
    decreases n,
{
    if n > 0 {
        lemma_run(run, n - 1);
        assert(step_went_well(run, n - 1));
        opening_stays_on_course(run[n - 1], run[n]);
        let a = run[0].vms;
        let b = run[n - 1].vms;
        let c = run[n].vms;
        assert forall|i: int| 0 <= i < a.len() implies (#[trigger] a[i]).id == c[i].id && a[i].lineage == c[i].lineage && kind_of(a[i].backend)
            == kind_of(c[i].backend) by {
            assert(b[i].id == c[i].id);
        }
    }
}

proof fn lemma_guests(v: OpeningView, ids: Seq<u64>, n: int)
    requires
        0 <= n <= v.vms.len(),
        ids.len() == v.vms.len(),
        ascending::<u64>(ids),
        forall|i: int| 0 <= i < v.vms.len() ==> (#[trigger] v.vms[i]).id == ids[i],
    ensures
        forall|k: u64| #[trigger] guests(v, n).contains_key(k) <==> among(ids, n, k),
        forall|i: int| 0 <= i < n ==> guests(v, n)[#[trigger] ids[i]] == v.guest(i),
    decreases n,
{
    if n > 0 {
        lemma_guests(v, ids, n - 1);
        lemma_among(ids, n - 1);
        assert(v.vms[n - 1].id == ids[n - 1]);
        let before = guests(v, n - 1);
        assert(guests(v, n) == before.insert(ids[n - 1], v.guest(n - 1)));
        assert forall|k: u64| #[trigger] guests(v, n).contains_key(k) <==> among(ids, n, k) by {
            assert(among(ids, n - 1 + 1, k) <==> among(ids, n - 1, k) || k == ids[n - 1]);
            assert(before.contains_key(k) <==> among(ids, n - 1, k));
        }
        assert forall|i: int| 0 <= i < n implies guests(v, n)[#[trigger] ids[i]] == v.guest(i) by {
            if i < n - 1 {
                assert(ids[i] < ids[n - 1]);
            }
        }
    }
}

/// A forest that was saved opens again: where all operations go well, nothing is missing. There are
/// the guests that there were, each run by what ran it, with the RAM and the filesystem that were
/// read back for it.
pub proof fn saved_forest_opens_again(
    forest: Map<u64, GuestView>,
    ids: Seq<KvmVmId>,
    captured: Seq<CapturedGuest>,
    run: Seq<OpeningView>,
)
    requires
        ascending::<KvmVmId>(ids.map_values(|id: KvmVmId| id.number())),
        forall|k: u64| #[trigger] forest.contains_key(k) <==> ids.map_values(|id: KvmVmId| id.number()).contains(k),
        run.len() > 0,
        opens(ids, forest, captured, run[0]),
        forall|k: int| 0 <= k < run.len() - 1 ==> #[trigger] step_went_well(run, k),
        run.last().stage is Done,
    ensures
        ({
            let last = run.last();
            let opened = guests(last, last.count() as int);
            &&& last.failure is None
            &&& opened.dom() == forest.dom()
            &&& forall|i: int|
                0 <= i < ids.len() ==> {
                    let guest = opened[(#[trigger] ids[i]).number()];
                    &&& guest.kind == forest[ids[i].number()].kind
                    &&& guest.ram == last.rams[i]
                    &&& last.filesystems[i] == Some(guest.filesystem)
                }
        }),
{
    let numbers = ids.map_values(|id: KvmVmId| id.number());
    let first = run[0];
    assert forall|i: int| 0 <= i < first.vms.len() implies attachable((#[trigger] first.vms[i]).backend) && first.vms[i].id == numbers[i] && kind_of(
        first.vms[i].backend,
    ) == forest[numbers[i]].kind by {
        assert(saves(ids[i], forest[ids[i].number()].kind, captured[i], first.vms[i]));
        lemma_saved_attachable(ids[i], forest[ids[i].number()].kind, captured[i], first.vms[i]);
    }
    assert(on_course(first));
    lemma_run(run, run.len() - 1);
    let last = run.last();
    let n = last.vms.len() as int;
    assert forall|i: int| 0 <= i < n implies (#[trigger] last.vms[i]).id == numbers[i] && kind_of(last.vms[i].backend)
        == forest[numbers[i]].kind by {
        assert(first.vms[i].id == last.vms[i].id);
    }
    assert(ascending::<u64>(numbers));
    lemma_guests(last, numbers, n);
    let opened = guests(last, n);
    assert forall|k: u64| opened.dom().contains(k) <==> forest.dom().contains(k) by {
        assert(among(numbers, n, k) <==> numbers.contains(k));
        assert(opened.contains_key(k) <==> forest.contains_key(k));
    }
    assert(opened.dom() =~= forest.dom());
    assert forall|i: int| 0 <= i < ids.len() implies {
        let guest = opened[(#[trigger] ids[i]).number()];
        &&& guest.kind == forest[ids[i].number()].kind
        &&& guest.ram == last.rams[i]
        &&& last.filesystems[i] == Some(guest.filesystem)
    } by {
        assert(opened[numbers[i]] == last.guest(i));
        assert(last.vms[i].id == numbers[i]);
        assert(last.filesystems[i] is Some);
    }
}

/// An opening leaves no operation out. RAM is read back before the first lineage, the lineages one after
/// another, the guests after all of them, in order; each guest is registered, or its state restored, its
/// dirty pages tracked and it resumed, before the next one is entered.
pub proof fn opening_leaves_nothing_out(before: OpeningView, after: OpeningView, i: usize)
    requires
        on_course(before),
        went_well(before, after),
        !(before.stage is Done),
    ensures
        after.stage is RestoreRams ==> before.stage is CreateHypervisor,
        after.stage == OpenStage::RestoreLineage(i) ==> (if i == 0 {
            before.stage is RestoreRams
        } else {
            before.stage == OpenStage::RestoreLineage((i - 1) as usize)
        }),
        after.stage == OpenStage::RegisterRam(i) ==> before.stage == OpenStage::CreateVm(i),
        after.stage == OpenStage::RestoreState(i) ==> before.stage == OpenStage::StartWorker(i),
        after.stage == OpenStage::BeginTracking(i) ==> before.stage == OpenStage::RestoreState(i),
        after.stage == OpenStage::ResumeVm(i) ==> before.stage == OpenStage::BeginTracking(i),
        after.stage == OpenStage::CreateVm(i) || after.stage == OpenStage::StartWorker(i) ==> (if i == 0 {
            ||| before.stage is RestoreRams && before.lineages.len() == 0
            ||| before.stage matches OpenStage::RestoreLineage(g) && g + 1 >= before.lineages.len()
        } else {
            before.stage == OpenStage::RegisterRam((i - 1) as usize) || before.stage == OpenStage::ResumeVm((i - 1) as usize)
        }),
        after.stage == OpenStage::CreateVm(i) ==> before.vms[i as int].backend is Raw,
        after.stage == OpenStage::StartWorker(i) ==> before.vms[i as int].backend is Cloud,
{
}

/// A guest can have its filesystem if and only if each place that was saved for it is one of its devices.
/// A guest without a filesystem, and one whose places do not fit, ends the opening with an error.
pub proof fn guests_are_entered_only_so(before: OpeningView, i: int, after: OpeningView, k: int)
    requires
        entered(before, i, after),
        0 <= i < before.count(),
        before.failure is None,
    ensures
        before.filesystems[i] is None ==> after.stage is Done && after.failure is Some,
        before.filesystems[i] is Some ==> {
            &&& before.vms[i].backend matches DurableBackend::Cloud { devices: Some(devices), in_process_filesystems } ==> (0 <= k
                < in_process_filesystems@.len() && in_process_filesystems@[k] >= devices@.len() ==> after.stage is Done && after.failure is Some)
            &&& attachable(before.vms[i].backend) ==> after.failure is None && after.stage == (if before.vms[i].backend is Raw {
                OpenStage::CreateVm(i as usize)
            } else {
                OpenStage::StartWorker(i as usize)
            })
        },
        before.vms[i].backend is Raw ==> attachable(before.vms[i].backend),
{
}

/// A guest is opened by what it was saved as: one of the VMM's own as such, a bare one as such.
pub proof fn kinds_are_kept(backend: DurableBackend)
    ensures
        kind_of(backend) is Raw <==> backend is Raw,
        kind_of(backend) is Cloud <==> backend is Cloud,
{
}

} // verus!
