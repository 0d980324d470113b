//! What whole requests on a DAX window come to.

use vstd::prelude::*;

#[allow(unused_imports)]
use crate::cache::shared::{
    activated, active_count, cached, copied, copies, countable, faulted, identity_at, map_refusal, mapped, open_count, page_at, renamed,
    unmap_refusal, unmapped, CacheView, Identity, MappingView,
};
#[allow(unused_imports)]
use crate::cache::store::{ForkableNodeStore, MapFlags, NodeId};
#[allow(unused_imports)]
use crate::cache::visible::{lemma_mapped_own, lemma_same_identity_same_page, page_start, seen_byte, visible_page};
#[allow(unused_imports)]
use crate::io::{IoError, EINVAL, ENODEV};
#[allow(unused_imports)]
use crate::ordered::{among, lemma_among};
#[allow(unused_imports)]
use crate::vmm::virtiofs::{
    empties, map_flags, nodes_opened, page_offsets, refills, removes, setup_refusal, shown_nodes, step_taken, went_on, DaxError, DaxKind, DaxStep, MappingSpec, TaskView,
    WindowView,
};

verus! {

/// A window, a request on it and the cache whose pages it shows.
#[verifier::reject_recursive_types(I)]
pub struct Moment<I> {
    pub window: WindowView,
    pub task: TaskView,
    pub cache: CacheView<I>,
}

impl<I> Moment<I> {
    /// What the files hold that the window shows, where the cache has its branch.
    pub open spec fn nodes(self) -> Option<Map<NodeId, Seq<u8>>> {
        if self.cache.branches.contains_key(self.window.branch) {
            Some(self.cache.branches[self.window.branch].nodes)
        } else {
            None
        }
    }

    /// Whether the page that is to be at an offset begins before the end of its file.
    pub open spec fn shows_bytes(self, o: u64) -> bool {
        let spec = self.window.specs[o];
        spec.file_offset < self.cache.branches[self.window.branch].nodes[spec.inode].len()
    }

    /// Whether the mapping is of the page that is to be at the offset.
    pub open spec fn is_planned(self, o: u64, mapping: MappingView) -> bool {
        let spec = self.window.specs[o];
        &&& mapping.branch == self.window.branch
        &&& mapping.key == (spec.inode, spec.file_offset)
        &&& mapping.flags == map_flags(spec)
    }
}

/// Whether a request goes on from one moment to the next: it takes a step, or it hears how the
/// operation went that the step asked for. Where `clean`, every page that a failed request takes
/// back could be taken out of the window.
pub open spec fn goes_on<S: ForkableNodeStore>(before: Moment<Identity<S>>, after: Moment<Identity<S>>, clean: bool) -> bool {
    if before.task.pending is Some {
        exists|outcome: Result<(), i32>| #[trigger]
            heard::<S>(before, after, outcome, Ok(())) && (clean && before.task.failure is Some ==> outcome is Ok)
    } else {
        exists|step: DaxStep| #[trigger] stepped::<S>(before, after, step) && !(step is Finished)
    }
}

/// Whether a request hears how an operation went.
pub open spec fn heard<S: ForkableNodeStore>(
    before: Moment<Identity<S>>,
    after: Moment<Identity<S>>,
    outcome: Result<(), i32>,
    r: Result<(), DaxError>,
) -> bool {
    went_on(before.window, before.task, before.cache, after.window, after.task, after.cache, outcome, r)
}

/// Whether a request takes a step.
pub open spec fn stepped<S: ForkableNodeStore>(before: Moment<Identity<S>>, after: Moment<Identity<S>>, step: DaxStep) -> bool {
    step_taken::<S>(before.window, before.task, before.cache, after.window, after.task, after.cache, step)
}

/// Whether a request ends with a result.
pub open spec fn ends<S: ForkableNodeStore>(before: Moment<Identity<S>>, after: Moment<Identity<S>>, r: Result<(), DaxError>) -> bool {
    if before.task.pending is Some {
        r is Err && exists|outcome: Result<(), i32>| #[trigger] heard::<S>(before, after, outcome, r)
    } else {
        stepped::<S>(before, after, DaxStep::Finished(r))
    }
}

/// Whether the moments of a run follow each other.
pub open spec fn run_on<S: ForkableNodeStore>(run: Seq<Moment<Identity<S>>>, clean: bool) -> bool {
    forall|k: int| 0 <= k < run.len() - 1 ==> #[trigger] follows::<S>(run, k, clean)
}

/// Whether moment `k + 1` of a run follows moment `k`.
pub open spec fn follows<S: ForkableNodeStore>(run: Seq<Moment<Identity<S>>>, k: int, clean: bool) -> bool {
    goes_on::<S>(run[k], run[k + 1], clean)
}

/// What stays the same while pages are put into a window.
spec fn steady<I>(first: Moment<I>, now: Moment<I>) -> bool {
    &&& now.task.kind == first.task.kind
    &&& now.task.offsets == first.task.offsets
    &&& now.task.planned == first.task.planned
    &&& now.task.window_ends == first.task.window_ends
    &&& now.window == (WindowView { active: now.window.active, ..first.window })
    &&& now.nodes() == first.nodes()
}

/// How far putting pages into a window has come.
spec fn filling<I>(first: Moment<I>, now: Moment<I>, clean: bool) -> bool {
    let offsets = first.task.offsets;
    &&& steady(first, now)
    &&& forall|o: u64| #[trigger] first.window.active.contains_key(o) ==> now.window.active.contains_key(o) && now.window.active[o]
        == first.window.active[o]
    &&& forall|o: u64| #[trigger] now.task.activated.contains(o) ==> {
        &&& now.window.active.contains_key(o)
        &&& !first.window.active.contains_key(o)
        &&& offsets.contains(o)
        &&& first.shows_bytes(o)
        &&& first.is_planned(o, now.window.active[o])
    }
    &&& forall|i: int, j: int| 0 <= i < j < now.task.activated.len() ==> now.task.activated[i] != now.task.activated[j]
    &&& forall|o: u64| #[trigger] now.window.active.contains_key(o) ==> first.window.active.contains_key(o) || offsets.contains(o)
    &&& now.task.failure is None || clean ==> forall|o: u64| #[trigger] now.window.active.contains_key(o) ==> first.window.active.contains_key(o)
        || now.task.activated.contains(o)
    &&& now.task.pending matches Some((o, mapping)) ==> {
        &&& offsets.contains(o)
        &&& !now.window.active.contains_key(o)
        &&& !now.task.activated.contains(o)
        &&& !first.window.active.contains_key(o)
        &&& now.task.failure is None ==> first.shows_bytes(o) && first.is_planned(o, mapping) && 0 <= now.task.next < offsets.len() && o
            == offsets[now.task.next]
    }
    &&& now.task.failure is None ==> {
        &&& 0 <= now.task.next <= offsets.len()
        &&& forall|o: u64| #[trigger] among(offsets, now.task.next, o) ==> now.window.active.contains_key(o) || !first.shows_bytes(o)
    }
}

/// Mapping a page leaves the files as they are.
proof fn lemma_nodes_mapped<S: ForkableNodeStore>(before: Moment<Identity<S>>, after: Moment<Identity<S>>, step: DaxStep)
    requires
        stepped::<S>(before, after, step),
        before.task.kind is Activate,
        before.task.failure is None,
    ensures
        after.nodes() == before.nodes(),
{
    let v = before.window;
    let t = before.task;
    let b = v.branch;
    let spec = v.specs[t.offsets[t.next]];
    match step {
        DaxStep::MapPage { offset, page } => {
            let identities = choose|identities: int| after.cache == #[trigger] mapped::<S>(before.cache, b, spec.inode, spec.file_offset, map_flags(spec), identities);
            let loaded = faulted::<S>(before.cache, b, spec.inode, spec.file_offset);
            assert(loaded.branches == before.cache.branches);
        },
        _ => {},
    }
}

proof fn lemma_filling<S: ForkableNodeStore>(first: Moment<Identity<S>>, before: Moment<Identity<S>>, after: Moment<Identity<S>>, clean: bool)
    requires
        first.task.kind is Activate,
        first.task.offsets.len() > 0 ==> first.window.window is Some,
        filling(first, before, clean),
        goes_on::<S>(before, after, clean),
    ensures
        filling(first, after, clean),
{
    let offsets = first.task.offsets;
    let v = before.window;
    let t = before.task;
    let w = after.window;
    let u = after.task;
    if t.pending is Some {
        let outcome = choose|outcome: Result<(), i32>| #[trigger]
            heard::<S>(before, after, outcome, Ok(())) && (clean && t.failure is Some ==> outcome is Ok);
        let (o, mapping) = t.pending->Some_0;
        assert(after.nodes() == before.nodes());
        if t.failure is None && outcome is Ok {
            assert(u.activated == t.activated.push(o));
            assert forall|p: u64| #[trigger] u.activated.contains(p) <==> t.activated.contains(p) || p == o by {
                if u.activated.contains(p) {
                    let i = choose|i: int| 0 <= i < u.activated.len() && u.activated[i] == p;
                    if i < t.activated.len() {
                        assert(t.activated[i] == p);
                    }
                }
                if t.activated.contains(p) {
                    let i = choose|i: int| 0 <= i < t.activated.len() && t.activated[i] == p;
                    assert(u.activated[i] == p);
                }
                if p == o {
                    assert(u.activated[t.activated.len() as int] == o);
                }
            }
            assert forall|i: int, j: int| 0 <= i < j < u.activated.len() implies u.activated[i] != u.activated[j] by {
                if j == t.activated.len() {
                    assert(t.activated.contains(t.activated[i]));
                }
            }
            lemma_among(offsets, t.next);
        }
        assert(filling(first, after, clean));
    } else {
        let step = choose|step: DaxStep| #[trigger] stepped::<S>(before, after, step) && !(step is Finished);
        if t.failure is Some {
            let o = t.activated.last();
            assert(t.activated.contains(o));
            let rest = t.activated.drop_last();
            assert(u.activated == rest);
            assert forall|p: u64| #[trigger] rest.contains(p) <==> t.activated.contains(p) && p != o by {
                if rest.contains(p) {
                    let i = choose|i: int| 0 <= i < rest.len() && rest[i] == p;
                    assert(t.activated[i] == p);
                    assert(t.activated[i] != t.activated[t.activated.len() - 1]);
                }
                if t.activated.contains(p) && p != o {
                    let i = choose|i: int| 0 <= i < t.activated.len() && t.activated[i] == p;
                    assert(rest[i] == p);
                }
            }
            assert(offsets.len() > 0);
        } else {
            lemma_nodes_mapped::<S>(before, after, step);
            if t.next < offsets.len() {
                assert(offsets.contains(offsets[t.next]));
                lemma_among(offsets, t.next);
            }
        }
        assert(filling(first, after, clean));
    }
}

proof fn lemma_filled<S: ForkableNodeStore>(run: Seq<Moment<Identity<S>>>, clean: bool, k: int)
    requires
        0 <= k < run.len(),
        run_on::<S>(run, clean),
        run[0].task.kind is Activate,
        run[0].task.offsets.len() > 0 ==> run[0].window.window is Some,
        filling(run[0], run[0], clean),
    ensures
        filling(run[0], run[k], clean),
    decreases k,
{
    if k > 0 {
        lemma_filled::<S>(run, clean, k - 1);
        assert(follows::<S>(run, k - 1, clean));
        lemma_filling::<S>(run[0], run[k - 1], run[k], clean);
    }
}

/// A request that puts pages into a window, carried out to its end. Where it succeeds, the window
/// has the pages that it had, and of the pages asked for all those that begin before the end of
/// their file, each as it is to be shown. Where it fails, the window has the pages that it had: with
/// others only where a page that was put in could not be taken out again. What the pages are to show
/// is as before; a failed request takes its own plan back.
pub proof fn filling_shows_the_pages_asked_for<S: ForkableNodeStore>(
    run: Seq<Moment<Identity<S>>>,
    after: Moment<Identity<S>>,
    r: Result<(), DaxError>,
    clean: bool,
)
    requires
        run.len() > 0,
        run[0].task == TaskView::fresh(DaxKind::Activate, run[0].task.offsets, run[0].task.planned, run[0].task.window_ends),
        run[0].task.wf(run[0].window),
        run_on::<S>(run, clean),
        ends::<S>(run.last(), after, r),
    ensures
        ({
            let first = run[0];
            let offsets = first.task.offsets;
            let had = first.window.active;
            let has = after.window.active;
            match r {
                Ok(()) => {
                    &&& after.window == (WindowView { active: has, ..first.window })
                    &&& forall|o: u64| #[trigger] has.contains_key(o) <==> had.contains_key(o) || offsets.contains(o) && first.shows_bytes(o)
                    &&& forall|o: u64| #[trigger] has.contains_key(o) ==> if had.contains_key(o) {
                        has[o] == had[o]
                    } else {
                        first.is_planned(o, has[o])
                    }
                },
                Err(_) => {
                    &&& after.window == (WindowView {
                        active: has,
                        window: if first.task.window_ends {
                            None
                        } else {
                            first.window.window
                        },
                        ..if first.task.planned {
                            first.window.without(offsets)
                        } else {
                            first.window
                        }
                    })
                    &&& forall|o: u64| #[trigger] had.contains_key(o) ==> has.contains_key(o) && has[o] == had[o]
                    &&& forall|o: u64| #[trigger] has.contains_key(o) ==> had.contains_key(o) || offsets.contains(o)
                    &&& clean ==> has == had
                },
            }
        }),
{
    let first = run[0];
    let last = run.last();
    let offsets = first.task.offsets;
    let had = first.window.active;
    let has = after.window.active;
    assert(filling(first, first, clean)) by {
        assert forall|o: u64| !#[trigger] among(offsets, 0, o) by {}
    }
    lemma_filled::<S>(run, clean, run.len() - 1);
    if r is Ok {
        assert(after.window == last.window);
        assert(last.task.next == offsets.len());
        assert forall|o: u64| #[trigger] has.contains_key(o) <==> had.contains_key(o) || offsets.contains(o) && first.shows_bytes(o) by {
            assert(among(offsets, offsets.len() as int, o) <==> offsets.contains(o));
            assert(has.contains_key(o) ==> had.contains_key(o) || last.task.activated.contains(o));
        }
        assert forall|o: u64| #[trigger] has.contains_key(o) implies if had.contains_key(o) {
            has[o] == had[o]
        } else {
            first.is_planned(o, has[o])
        } by {
            if !had.contains_key(o) {
                assert(last.task.activated.contains(o));
            }
        }
    } else {
        assert(last.task.failure is Some);
        assert(last.task.activated.len() == 0);
        assert(has == last.window.active);
        if clean {
            assert(has =~= had);
        }
    }
}

/// How far taking pages out of a window has come.
spec fn emptying<I>(first: Moment<I>, now: Moment<I>) -> bool {
    let offsets = first.task.offsets;
    &&& now.task.kind == first.task.kind
    &&& now.task.offsets == offsets
    &&& now.task.window_ends == first.task.window_ends
    &&& now.task.failure is None
    &&& 0 <= now.task.next <= offsets.len()
    &&& now.window == (WindowView { active: now.window.active, specs: now.window.specs, ..first.window })
    &&& forall|o: u64| #[trigger] now.window.active.contains_key(o) ==> first.window.active.contains_key(o) && now.window.active[o]
        == first.window.active[o] && !among(offsets, now.task.next, o)
    &&& forall|o: u64| #[trigger] first.window.active.contains_key(o) ==> now.window.active.contains_key(o) || among(offsets, now.task.next, o)
        || now.task.pending is Some && now.task.pending->Some_0.0 == o
    &&& now.task.pending matches Some((o, mapping)) ==> {
        &&& now.task.next < offsets.len()
        &&& o == offsets[now.task.next]
        &&& first.window.active.contains_key(o)
        &&& mapping == first.window.active[o]
        &&& !among(offsets, now.task.next, o)
        &&& !now.window.active.contains_key(o)
    }
    &&& forall|o: u64| #[trigger] now.window.specs.contains_key(o) <==> first.window.specs.contains_key(o) && !(first.task.kind is Remove && among(
        offsets,
        now.task.next,
        o,
    ))
    &&& forall|o: u64| #[trigger] now.window.specs.contains_key(o) ==> now.window.specs[o] == first.window.specs[o]
}

proof fn lemma_emptying<S: ForkableNodeStore>(first: Moment<Identity<S>>, before: Moment<Identity<S>>, after: Moment<Identity<S>>)
    requires
        !(first.task.kind is Activate),
        emptying(first, before),
        goes_on::<S>(before, after, true),
    ensures
        emptying(first, after),
{
    let offsets = first.task.offsets;
    let t = before.task;
    if t.next < offsets.len() {
        lemma_among(offsets, t.next);
    }
    if t.pending is Some {
        let outcome = choose|outcome: Result<(), i32>| #[trigger]
            heard::<S>(before, after, outcome, Ok(())) && (t.failure is Some ==> outcome is Ok);
        assert(outcome is Ok);
    } else {
        let step = choose|step: DaxStep| #[trigger] stepped::<S>(before, after, step) && !(step is Finished);
    }
}

proof fn lemma_emptied<S: ForkableNodeStore>(run: Seq<Moment<Identity<S>>>, k: int)
    requires
        0 <= k < run.len(),
        run_on::<S>(run, true),
        !(run[0].task.kind is Activate),
        emptying(run[0], run[0]),
    ensures
        emptying(run[0], run[k]),
    decreases k,
{
    if k > 0 {
        lemma_emptied::<S>(run, k - 1);
        assert(follows::<S>(run, k - 1, true));
        lemma_emptying::<S>(run[0], run[k - 1], run[k]);
    }
}

/// A request that takes pages out of a window, carried out to its end. Where it succeeds, the window
/// has the pages that it had, without those asked for; what these were to show is forgotten where
/// they are taken out for good, and kept otherwise. Whether or not it succeeds, all other pages stay.
pub proof fn emptying_takes_the_pages_asked_for<S: ForkableNodeStore>(
    run: Seq<Moment<Identity<S>>>,
    after: Moment<Identity<S>>,
    r: Result<(), DaxError>,
)
    requires
        run.len() > 0,
        !(run[0].task.kind is Activate),
        run[0].task == TaskView::fresh(run[0].task.kind, run[0].task.offsets, false, run[0].task.window_ends),
        run_on::<S>(run, true),
        ends::<S>(run.last(), after, r),
    ensures
        ({
            let first = run[0];
            let offsets = first.task.offsets;
            let had = first.window.active;
            let has = after.window.active;
            &&& forall|o: u64| #[trigger] has.contains_key(o) ==> had.contains_key(o) && has[o] == had[o]
            &&& forall|o: u64| #[trigger] had.contains_key(o) && !offsets.contains(o) ==> has.contains_key(o)
            &&& forall|o: u64| #[trigger] after.window.specs.contains_key(o) ==> first.window.specs.contains_key(o) && after.window.specs[o]
                == first.window.specs[o]
            &&& forall|o: u64| #[trigger] first.window.specs.contains_key(o) && !(first.task.kind is Remove && offsets.contains(o))
                ==> after.window.specs.contains_key(o)
            &&& r is Ok ==> {
                &&& forall|o: u64| #[trigger] has.contains_key(o) <==> had.contains_key(o) && !offsets.contains(o)
                &&& forall|o: u64| #[trigger] after.window.specs.contains_key(o) <==> first.window.specs.contains_key(o) && !(first.task.kind is Remove
                    && offsets.contains(o))
                &&& after.window.window == (if first.task.window_ends { None } else { first.window.window })
            }
        }),
{
    let first = run[0];
    let last = run.last();
    let offsets = first.task.offsets;
    assert(emptying(first, first)) by {
        assert forall|o: u64| !#[trigger] among(offsets, 0, o) by {}
    }
    lemma_emptied::<S>(run, run.len() - 1);
    assert forall|o: u64| #[trigger] among(offsets, last.task.next, o) implies offsets.contains(o) by {}
    assert forall|o: u64| #[trigger] offsets.contains(o) implies among(offsets, offsets.len() as int, o) by {}
    if last.task.pending is Some {
        let outcome = choose|outcome: Result<(), i32>| #[trigger] heard::<S>(last, after, outcome, r);
        assert(offsets.contains(offsets[last.task.next]));
    } else if last.task.next < offsets.len() {
        assert(offsets.contains(offsets[last.task.next]));
    }
}

/// The pages of a range begin every 4096 bytes, from its start on.
pub proof fn pages_follow_each_other(start: u64, count: int, i: int)
    requires
        0 <= i < count,
        start + 4096 * count <= u64::MAX,
    ensures
        page_offsets(start, count).len() == count,
        page_offsets(start, count)[i] == start + 4096 * i,
{
}

/// A request for a range of a file that is not refused: each page of the range in the window is to
/// show the page of the file that lies as far behind the request's file offset; all other pages are to
/// show what they were to show before. The request goes on with just the pages of the range.
pub proof fn setup_plans_each_page(v: WindowView, inode: u64, file_offset: u64, len: u64, writable: bool, window_offset: u64, i: int, o: u64)
    requires
        setup_refusal(v, inode, file_offset, len, window_offset) is None,
    ensures
        ({
            let w = v.planned(inode as u32, file_offset, writable, window_offset, len as int / 4096);
            let offsets = page_offsets(window_offset, len as int / 4096);
            &&& w.branch == v.branch && w.window == v.window && w.active == v.active
            &&& offsets.len() == len / 4096
            &&& 0 <= i < len / 4096 ==> {
                &&& offsets[i] == window_offset + 4096 * i
                &&& w.specs.contains_key((window_offset + 4096 * i) as u64)
                &&& w.specs[(window_offset + 4096 * i) as u64].inode == inode
                &&& w.specs[(window_offset + 4096 * i) as u64].file_offset == file_offset + 4096 * i
                &&& w.specs[(window_offset + 4096 * i) as u64].writable == writable
                &&& !v.specs.contains_key((window_offset + 4096 * i) as u64)
            }
            &&& !(window_offset <= o < window_offset + len) ==> {
                &&& w.specs.contains_key(o) <==> v.specs.contains_key(o)
                &&& v.specs.contains_key(o) ==> w.specs[o] == v.specs[o]
            }
            &&& w.specs.contains_key(o) && window_offset <= o < window_offset + len ==> (o - window_offset) % 4096 == 0
        }),
{
    if 0 <= i < len / 4096 {
        assert(4096 * i + 4096 <= len);
        let at = (window_offset + 4096 * i) as u64;
        assert(at % 4096 == 0);
        if v.specs.contains_key(at) {
            assert(window_offset <= at < window_offset + len);
        }
    }
}

/// A request for a range is taken up if and only if the range and its place in the window are whole
/// pages, there is a window and it reaches over the range, the file offset does not overflow, no page of
/// the range is planned already, and the inode is one.
pub proof fn setup_is_refused_only_so(v: WindowView, inode: u64, file_offset: u64, len: u64, window_offset: u64)
    ensures
        setup_refusal(v, inode, file_offset, len, window_offset) is None <==> {
            &&& len > 0
            &&& len % 4096 == 0 && file_offset % 4096 == 0 && window_offset % 4096 == 0
            &&& v.window matches Some((address, size)) && window_offset + len <= size
            &&& window_offset + len <= u64::MAX
            &&& file_offset + len <= u64::MAX
            &&& inode <= 0xffff_ffff
            &&& forall|o: u64| #[trigger] v.specs.contains_key(o) ==> o < window_offset || window_offset + len <= o
        },
        v.window is None && len > 0 && len % 4096 == 0 && file_offset % 4096 == 0 && window_offset % 4096 == 0 ==> setup_refusal(
            v,
            inode,
            file_offset,
            len,
            window_offset,
        ) == Some(ENODEV),
        len == 0 || len % 4096 != 0 || file_offset % 4096 != 0 || window_offset % 4096 != 0 ==> setup_refusal(v, inode, file_offset, len, window_offset)
            == Some(EINVAL),
{
}

/// A request for a range of a file, carried out to a good end. Each page of the range that begins before
/// the end of the file is then in the window, mapped from the page of the file that lies as far behind
/// the file offset, and writable just where that was asked for; pages behind the end of the file are not.
/// All other pages are as they were.
pub proof fn setup_shows_the_range<S: ForkableNodeStore>(
    v: WindowView,
    inode: u64,
    file_offset: u64,
    len: u64,
    writable: bool,
    window_offset: u64,
    run: Seq<Moment<Identity<S>>>,
    after: Moment<Identity<S>>,
    clean: bool,
    i: int,
    o: u64,
)
    requires
        setup_refusal(v, inode, file_offset, len, window_offset) is None,
        run.len() > 0,
        run[0].window == v.planned(inode as u32, file_offset, writable, window_offset, len as int / 4096),
        run[0].task == TaskView::fresh(DaxKind::Activate, page_offsets(window_offset, len as int / 4096), true, false),
        run[0].task.wf(run[0].window),
        run_on::<S>(run, clean),
        ends::<S>(run.last(), after, Ok(())),
    ensures
        ({
            let at = (window_offset + 4096 * i) as u64;
            let file = run[0].cache.branches[v.branch].nodes[inode as u32];
            let has = after.window.active;
            &&& 0 <= i < len / 4096 && !v.active.contains_key(at) ==> {
                &&& has.contains_key(at) <==> file_offset + 4096 * i < file.len()
                &&& has.contains_key(at) ==> {
                    &&& has[at].branch == v.branch
                    &&& has[at].key == (inode as u32, (file_offset + 4096 * i) as u64)
                    &&& has[at].flags.readable
                    &&& has[at].flags.writable == writable
                }
            }
            &&& !(window_offset <= o < window_offset + len) || v.active.contains_key(o) ==> {
                &&& has.contains_key(o) <==> v.active.contains_key(o)
                &&& v.active.contains_key(o) ==> has[o] == v.active[o]
            }
            &&& after.window.specs == run[0].window.specs
        }),
{
    filling_shows_the_pages_asked_for::<S>(run, after, Ok(()), clean);
    setup_plans_each_page(v, inode, file_offset, len, writable, window_offset, i, o);
    let offsets = page_offsets(window_offset, len as int / 4096);
    let at = (window_offset + 4096 * i) as u64;
    if 0 <= i < len / 4096 {
        assert(offsets[i] == at);
        assert(offsets.contains(at));
        assert(file_offset + 4096 * i <= u64::MAX);
        let spec = run[0].window.specs[at];
        assert(spec.file_offset == file_offset + 4096 * i && spec.inode == inode && spec.writable == writable);
        assert(run[0].window.active == v.active && run[0].window.branch == v.branch);
        assert(run[0].shows_bytes(at) <==> file_offset + 4096 * i < run[0].cache.branches[v.branch].nodes[inode as u32].len());
        if after.window.active.contains_key(at) {
            assert(run[0].shows_bytes(at) || v.active.contains_key(at));
            assert(!v.active.contains_key(at) ==> run[0].is_planned(at, after.window.active[at]));
        }
    }
    if !(window_offset <= o < window_offset + len) {
        if offsets.contains(o) {
            let k = choose|k: int| 0 <= k < offsets.len() && offsets[k] == o;
            assert(offsets[k] == window_offset + 4096 * k);
            assert(4096 * k + 4096 <= len);
        }
    }
    assert(after.window.active.contains_key(o) <==> v.active.contains_key(o) || offsets.contains(o) && run[0].shows_bytes(o));
}

/// A request to remove a range from the window, carried out to a good end, leaves no page of the range
/// in the window or planned, and all others as they were.
pub proof fn removal_clears_the_range<S: ForkableNodeStore>(
    window_offset: u64,
    len: u64,
    run: Seq<Moment<Identity<S>>>,
    after: Moment<Identity<S>>,
    i: int,
    o: u64,
)
    requires
        window_offset + len <= u64::MAX,
        run.len() > 0,
        run[0].task == TaskView::fresh(DaxKind::Remove, page_offsets(window_offset, len as int / 4096), false, false),
        run_on::<S>(run, true),
        ends::<S>(run.last(), after, Ok(())),
    ensures
        ({
            let first = run[0].window;
            let at = (window_offset + 4096 * i) as u64;
            &&& 0 <= i < len / 4096 ==> !after.window.active.contains_key(at) && !after.window.specs.contains_key(at)
            &&& !(window_offset <= o < window_offset + len) ==> {
                &&& after.window.active.contains_key(o) <==> first.active.contains_key(o)
                &&& first.active.contains_key(o) ==> after.window.active[o] == first.active[o]
                &&& after.window.specs.contains_key(o) <==> first.specs.contains_key(o)
                &&& first.specs.contains_key(o) ==> after.window.specs[o] == first.specs[o]
            }
            &&& after.window.window == first.window
        }),
{
    emptying_takes_the_pages_asked_for::<S>(run, after, Ok(()));
    let offsets = page_offsets(window_offset, len as int / 4096);
    let at = (window_offset + 4096 * i) as u64;
    if 0 <= i < len / 4096 {
        assert(offsets[i] == at);
        assert(offsets.contains(at));
    }
    if !(window_offset <= o < window_offset + len) {
        if offsets.contains(o) {
            let k = choose|k: int| 0 <= k < offsets.len() && offsets[k] == o;
            assert(offsets[k] == window_offset + 4096 * k);
        }
    }
}

/// Whether the window has just the pages that it is to show, as far as their files reach.
pub open spec fn is_full<I>(moment: Moment<I>) -> bool {
    let window = moment.window;
    &&& forall|o: u64| #[trigger] window.active.contains_key(o) ==> window.specs.contains_key(o)
    &&& forall|o: u64| #[trigger] window.specs.contains_key(o) ==> (window.active.contains_key(o) <==> window.specs[o].file_offset
        < moment.cache.branches[window.branch].nodes[window.specs[o].inode].len())
    &&& forall|o: u64| #[trigger]
        window.active.contains_key(o) ==> {
            &&& window.active[o].key == (window.specs[o].inode, window.specs[o].file_offset)
            &&& window.active[o].flags.writable == window.specs[o].writable
            &&& window.active[o].flags.readable
        }
}

/// A window that is emptied and then filled again shows the same pages of the same files as before,
/// where the files are as long as they were.
pub proof fn refilling_undoes_emptying<S: ForkableNodeStore>(
    out: Seq<Moment<Identity<S>>>,
    emptied: Moment<Identity<S>>,
    back: Seq<Moment<Identity<S>>>,
    refilled: Moment<Identity<S>>,
    clean: bool,
    o: u64,
)
    requires
        out.len() > 0,
        is_full(out[0]),
        out[0].task.kind is Suspend,
        out[0].task == TaskView::fresh(DaxKind::Suspend, out[0].task.offsets, false, false),
        forall|p: u64| #[trigger] out[0].task.offsets.contains(p) <==> out[0].window.active.contains_key(p),
        run_on::<S>(out, true),
        ends::<S>(out.last(), emptied, Ok(())),
        back.len() > 0,
        back[0].window == emptied.window,
        back[0].window.branch == out[0].window.branch,
        back[0].nodes() == out[0].nodes(),
        out[0].nodes() is Some,
        back[0].task == TaskView::fresh(DaxKind::Activate, back[0].task.offsets, false, false),
        forall|p: u64| #[trigger] back[0].task.offsets.contains(p) <==> back[0].window.specs.contains_key(p),
        back[0].task.wf(back[0].window),
        run_on::<S>(back, clean),
        ends::<S>(back.last(), refilled, Ok(())),
    ensures
        !emptied.window.active.contains_key(o),
        emptied.window.specs == out[0].window.specs,
        refilled.window.specs == out[0].window.specs,
        refilled.window.window == out[0].window.window,
        refilled.window.active.contains_key(o) <==> out[0].window.active.contains_key(o),
        refilled.window.active.contains_key(o) ==> {
            &&& refilled.window.active[o].key == out[0].window.active[o].key
            &&& refilled.window.active[o].flags.readable
            &&& refilled.window.active[o].flags.writable == out[0].window.active[o].flags.writable
        },
{
    emptying_takes_the_pages_asked_for::<S>(out, emptied, Ok(()));
    filling_shows_the_pages_asked_for::<S>(back, refilled, Ok(()), clean);
    assert(emptied.window.specs =~= out[0].window.specs);
    assert(!emptied.window.active.contains_key(o));
    if back[0].task.offsets.contains(o) {
        assert(back[0].shows_bytes(o) <==> out[0].window.active.contains_key(o));
    }
}

/// A moment of a request, with the pages that the host's window has and the operation that was last
/// asked for.
#[verifier::reject_recursive_types(I)]
pub struct HostMoment<I> {
    pub at: Moment<I>,
    pub host: Map<u64, u64>,
    pub asked: DaxStep,
}

/// The pages that the host's window has once an operation is done.
pub open spec fn performed(host: Map<u64, u64>, step: DaxStep) -> Map<u64, u64> {
    match step {
        DaxStep::MapPage { offset, page } => host.insert(offset, page),
        DaxStep::UnmapPage { offset } => host.remove(offset),
        _ => host,
    }
}

/// Whether the host carries a request on from one moment to the next: it asks for the next operation,
/// or it performs the one that was asked for, which may fail and then changes nothing.
pub open spec fn host_goes_on<S: ForkableNodeStore>(before: HostMoment<Identity<S>>, after: HostMoment<Identity<S>>) -> bool {
    if before.at.task.pending is Some {
        exists|outcome: Result<(), i32>, r: Result<(), DaxError>|
            {
                &&& #[trigger] heard::<S>(before.at, after.at, outcome, r)
                &&& r is Ok
                &&& after.host == (if outcome is Ok {
                    performed(before.host, before.asked)
                } else {
                    before.host
                })
            }
    } else {
        &&& stepped::<S>(before.at, after.at, after.asked)
        &&& !(after.asked is Finished)
        &&& after.host == before.host
    }
}

/// Whether the host's window has just the pages of the mappings that are in the window.
pub open spec fn host_shows(host: Map<u64, u64>, window: WindowView) -> bool {
    &&& forall|o: u64| #[trigger] host.contains_key(o) <==> window.active.contains_key(o)
    &&& forall|o: u64| #[trigger] host.contains_key(o) ==> host[o] == window.active[o].page
}

spec fn in_step<I>(moment: HostMoment<I>) -> bool {
    let window = moment.at.window;
    &&& window.window is Some
    &&& match moment.at.task.pending {
        None => host_shows(moment.host, window),
        Some((o, mapping)) => {
            &&& !window.active.contains_key(o)
            &&& if moment.at.task.kind is Activate && moment.at.task.failure is None {
                moment.asked == (DaxStep::MapPage { offset: o, page: mapping.page }) && host_shows(moment.host, window)
            } else {
                &&& moment.asked == (DaxStep::UnmapPage { offset: o })
                &&& host_shows(moment.host, WindowView { active: window.active.insert(o, mapping), ..window })
            }
        },
    }
}

proof fn lemma_in_step<S: ForkableNodeStore>(before: HostMoment<Identity<S>>, after: HostMoment<Identity<S>>)
    requires
        in_step(before),
        before.at.task.wf(before.at.window),
        host_goes_on::<S>(before, after),
    ensures
        in_step(after),
{
    let v = before.at.window;
    let t = before.at.task;
    if t.pending is Some {
        let (outcome, r) = choose|outcome: Result<(), i32>, r: Result<(), DaxError>|
            {
                &&& #[trigger] heard::<S>(before.at, after.at, outcome, r)
                &&& r is Ok
                &&& after.host == (if outcome is Ok {
                    performed(before.host, before.asked)
                } else {
                    before.host
                })
            };
        let (o, mapping) = t.pending->Some_0;
        assert(after.at.task.pending is None);
    } else if t.failure is Some {
        if t.activated.len() > 0 {
            let o = t.activated.last();
            if v.active.contains_key(o) {
                assert(v.active.remove(o).insert(o, v.active[o]) =~= v.active);
            }
        }
    } else if !(t.kind is Activate) {
        if t.next < t.offsets.len() {
            let o = t.offsets[t.next];
            if v.active.contains_key(o) {
                assert(v.active.remove(o).insert(o, v.active[o]) =~= v.active);
            }
        }
    }
}

/// While a request is carried out on an attached window, the host's window always has the pages of the
/// mappings that count as being in it, between the operations, and no others.
pub proof fn host_window_keeps_up<S: ForkableNodeStore>(run: Seq<HostMoment<Identity<S>>>, k: int)
    requires
        0 <= k < run.len(),
        run[0].at.window.window is Some,
        run[0].at.task.pending is None,
        host_shows(run[0].host, run[0].at.window),
        forall|j: int| 0 <= j < run.len() ==> (#[trigger] run[j]).at.task.wf(run[j].at.window),
        forall|j: int| 0 <= j < run.len() - 1 ==> #[trigger] host_follows::<S>(run, j),
    ensures
        run[k].at.task.pending is None ==> host_shows(run[k].host, run[k].at.window),
{
    lemma_host_steps::<S>(run, k);
}

/// Whether moment `k + 1` of the host's run follows moment `k`.
pub open spec fn host_follows<S: ForkableNodeStore>(run: Seq<HostMoment<Identity<S>>>, k: int) -> bool {
    host_goes_on::<S>(run[k], run[k + 1])
}

proof fn lemma_host_steps<S: ForkableNodeStore>(run: Seq<HostMoment<Identity<S>>>, k: int)
    requires
        0 <= k < run.len(),
        run[0].at.window.window is Some,
        run[0].at.task.pending is None,
        host_shows(run[0].host, run[0].at.window),
        forall|j: int| 0 <= j < run.len() ==> (#[trigger] run[j]).at.task.wf(run[j].at.window),
        forall|j: int| 0 <= j < run.len() - 1 ==> #[trigger] host_follows::<S>(run, j),
    ensures
        in_step(run[k]),
    decreases k,
{
    if k > 0 {
        lemma_host_steps::<S>(run, k - 1);
        assert(host_follows::<S>(run, k - 1));
        lemma_in_step::<S>(run[k - 1], run[k]);
    }
}

/// Whether a mapping is of the page that its branch sees.
pub open spec fn shows_its_page<S: ForkableNodeStore>(cache: CacheView<Identity<S>>, mapping: MappingView) -> bool {
    &&& cached::<S>(cache, mapping.branch, mapping.key.0, mapping.key.1)
    &&& page_at::<S>(cache, mapping.branch, mapping.key.0, mapping.key.1) == mapping.page
    &&& active_count(cache, mapping.branch, mapping.page) > 0
}

/// Whether a moment is one in which the window may be stepped on.
pub open spec fn may_step<I>(moment: Moment<I>) -> bool {
    &&& moment.window.wf()
    &&& moment.task.wf(moment.window)
    &&& moment.cache.wf()
    &&& moment.cache.next_page < u64::MAX - 1
    &&& countable(moment.cache, moment.window.branch)
}

spec fn all_show<S: ForkableNodeStore>(first: CacheView<Identity<S>>, now: Moment<Identity<S>>) -> bool {
    let b = now.window.branch;
    &&& now.cache.branches.contains_key(b)
    &&& forall|o: u64| #[trigger] now.window.active.contains_key(o) ==> now.window.active[o].branch == b && shows_its_page::<S>(
        now.cache,
        now.window.active[o],
    )
    &&& now.task.pending matches Some((o, mapping)) ==> mapping.branch == b && shows_its_page::<S>(now.cache, mapping)
    &&& forall|n: NodeId, p: u64| #![trigger visible_page::<S>(now.cache, b, n, p)]
        page_start(p) ==> visible_page::<S>(now.cache, b, n, p) == visible_page::<S>(first, b, n, p)
}

proof fn lemma_mapped_keeps<S: ForkableNodeStore>(
    v: CacheView<Identity<S>>,
    b: u64,
    node: NodeId,
    offset: u64,
    flags: MapFlags,
    identities: int,
    m: MappingView,
)
    requires
        v.wf(),
        v.branches.contains_key(b),
        v.next_page < u64::MAX - 1,
        page_start(offset),
        page_start(m.key.1),
        m.branch == b,
        shows_its_page::<S>(v, m),
        identity_at::<S>(v, b, node, offset / 4096) is Some,
        copies(v, b, node, offset, flags) ==> renamed::<S>(v.branches[b].identities, identities, node, offset / 4096),
        copies(v, b, node, offset, flags) ==> active_count(v, b, page_at::<S>(faulted::<S>(v, b, node, offset), b, node, offset)) == 0,
        countable(v, b),
    ensures
        shows_its_page::<S>(mapped::<S>(v, b, node, offset, flags, identities), m),
{
    let loaded = faulted::<S>(v, b, node, offset);
    let id = identity_at::<S>(v, b, m.key.0, m.key.1 / 4096);
    assert(shows_its_page::<S>(loaded, m)) by {
        if !cached::<S>(v, b, node, offset) {
            assert(identity_at::<S>(v, b, node, offset / 4096) != id);
        }
    }
    let ready = if copies(v, b, node, offset, flags) {
        copied::<S>(loaded, b, node, offset, identities)
    } else {
        loaded
    };
    if copies(v, b, node, offset, flags) {
        if m.key == (node, offset) {
            assert(page_at::<S>(loaded, b, node, offset) == m.page);
            assert(active_count(v, b, m.page) > 0);
            assert(false);
        }
        let was = identity_at::<S>(loaded, b, node, offset / 4096);
        if m.key.0 == node && m.key.1 / 4096 == offset / 4096 {
            assert(m.key.1 == offset);
        }
        assert(identity_at::<S>(ready, b, m.key.0, m.key.1 / 4096) == id);
        if id == was {
            lemma_same_identity_same_page::<S>(loaded, b, b, m.key.0, node, m.key.1, offset);
        }
        if id == identity_at::<S>(ready, b, node, offset / 4096) {
            lemma_same_identity_same_page::<S>(ready, b, b, m.key.0, node, m.key.1, offset);
        }
        assert(shows_its_page::<S>(ready, m));
    }
    let done = activated(ready, b, (node, offset), page_at::<S>(ready, b, node, offset));
    assert(shows_its_page::<S>(done, m));
    assert(done.swept().pages == done.pages);
}

proof fn lemma_all_show<S: ForkableNodeStore>(first: CacheView<Identity<S>>, before: Moment<Identity<S>>, after: Moment<Identity<S>>, clean: bool)
    requires
        before.task.kind is Activate,
        before.task.failure is None,
        after.task.failure is None,
        may_step(before),
        all_show::<S>(first, before),
        goes_on::<S>(before, after, clean),
    ensures
        all_show::<S>(first, after),
{
    let v = before.window;
    let t = before.task;
    let b = v.branch;
    if t.pending is Some {
        let outcome = choose|outcome: Result<(), i32>| #[trigger]
            heard::<S>(before, after, outcome, Ok(())) && (clean && t.failure is Some ==> outcome is Ok);
        assert(outcome is Ok);
    } else {
        let step = choose|step: DaxStep| #[trigger] stepped::<S>(before, after, step) && !(step is Finished);
        match step {
            DaxStep::MapPage { offset, page } => {
                let spec = v.specs[t.offsets[t.next]];
                let flags = map_flags(spec);
                let mapping = after.task.pending->Some_0.1;
                let loaded = faulted::<S>(before.cache, b, spec.inode, spec.file_offset);
                let identities = choose|identities: int|
                    {
                        &&& map_refusal(before.cache, b, spec.inode, spec.file_offset, flags) is None
                        &&& identity_at::<S>(before.cache, b, spec.inode, spec.file_offset / 4096) is Some
                        &&& copies(before.cache, b, spec.inode, spec.file_offset, flags) ==> !(active_count(
                            before.cache,
                            b,
                            page_at::<S>(loaded, b, spec.inode, spec.file_offset),
                        ) > 0) && renamed::<S>(before.cache.branches[b].identities, identities, spec.inode, spec.file_offset / 4096)
                        &&& after.cache == #[trigger] mapped::<S>(before.cache, b, spec.inode, spec.file_offset, flags, identities)
                        &&& mapping == (MappingView {
                            cache_id: before.cache.id,
                            branch: b,
                            key: (spec.inode, spec.file_offset),
                            flags,
                            page: page_at::<S>(after.cache, b, spec.inode, spec.file_offset),
                        })
                    };
                assert(v.specs.contains_key(t.offsets[t.next]));
                assert(page_start(spec.file_offset));
                lemma_counted(before.cache, b, page_at::<S>(loaded, b, spec.inode, spec.file_offset));
                assert forall|n: NodeId, p: u64| #![trigger visible_page::<S>(after.cache, b, n, p)]
                    page_start(p) implies visible_page::<S>(after.cache, b, n, p) == visible_page::<S>(first, b, n, p) by {
                    lemma_mapped_own::<S>(before.cache, b, spec.inode, spec.file_offset, flags, identities, n, p);
                    assert(visible_page::<S>(before.cache, b, n, p) == visible_page::<S>(first, b, n, p));
                }
                lemma_mapped_own::<S>(before.cache, b, spec.inode, spec.file_offset, flags, identities, spec.inode, spec.file_offset);
                assert forall|o: u64| #[trigger] after.window.active.contains_key(o) implies after.window.active[o].branch == b
                    && shows_its_page::<S>(after.cache, after.window.active[o]) by {
                    assert(v.active.contains_key(o));
                    lemma_mapped_keeps::<S>(before.cache, b, spec.inode, spec.file_offset, flags, identities, v.active[o]);
                }
                let ready = if copies(before.cache, b, spec.inode, spec.file_offset, flags) {
                    copied::<S>(loaded, b, spec.inode, spec.file_offset, identities)
                } else {
                    loaded
                };
                let number = page_at::<S>(ready, b, spec.inode, spec.file_offset);
                assert(page_at::<S>(after.cache, b, spec.inode, spec.file_offset) == number);
                lemma_counted(ready, b, number);
                assert(active_count(after.cache, b, number) > 0);
            },
            _ => {},
        }
    }
}

proof fn lemma_counted<I>(v: CacheView<I>, b: u64, page: u64)
    requires
        countable(v, b),
        v.branches.contains_key(b),
    ensures
        active_count(v, b, page) < usize::MAX,
{
}

proof fn lemma_shown_along<S: ForkableNodeStore>(run: Seq<Moment<Identity<S>>>, clean: bool, k: int)
    requires
        0 <= k < run.len(),
        run[0].task.kind is Activate,
        run_on::<S>(run, clean),
        forall|j: int| 0 <= j < run.len() ==> may_step(#[trigger] run[j]),
        forall|j: int| 0 <= j < run.len() ==> (#[trigger] run[j]).task.failure is None && run[j].task.kind is Activate,
        all_show::<S>(run[0].cache, run[0]),
    ensures
        all_show::<S>(run[0].cache, run[k]),
    decreases k,
{
    if k > 0 {
        lemma_shown_along::<S>(run, clean, k - 1);
        assert(follows::<S>(run, k - 1, clean));
        lemma_all_show::<S>(run[0].cache, run[k - 1], run[k], clean);
    }
}

/// A window that a request has filled to a good end shows the files as the branch sees them: each page in
/// it is the cache's page with the bytes that the branch saw, before the request and still, at the page's
/// place in its file.
pub proof fn filled_window_shows_the_files<S: ForkableNodeStore>(
    run: Seq<Moment<Identity<S>>>,
    after: Moment<Identity<S>>,
    clean: bool,
    o: u64,
    x: int,
)
    requires
        run.len() > 0,
        run[0].task == TaskView::fresh(DaxKind::Activate, run[0].task.offsets, run[0].task.planned, run[0].task.window_ends),
        run_on::<S>(run, clean),
        forall|j: int| 0 <= j < run.len() ==> may_step(#[trigger] run[j]),
        ends::<S>(run.last(), after, Ok(())),
        run[0].cache.branches.contains_key(run[0].window.branch),
        forall|p: u64| #[trigger] run[0].window.active.contains_key(p) ==> run[0].window.active[p].branch == run[0].window.branch
            && shows_its_page::<S>(run[0].cache, run[0].window.active[p]),
        after.window.active.contains_key(o),
        0 <= x < 4096,
    ensures
        ({
            let m = after.window.active[o];
            &&& after.cache.frames[m.page][x] == seen_byte::<S>(run[0].cache, run[0].window.branch, m.key.0, m.key.1 + x)
            &&& after.cache.frames[m.page][x] == seen_byte::<S>(after.cache, run[0].window.branch, m.key.0, m.key.1 + x)
        }),
{
    let first = run[0];
    let last = run.last();
    lemma_filled_well::<S>(run, after, clean);
    lemma_shown_along::<S>(run, clean, run.len() - 1);
    let m = after.window.active[o];
    let b = first.window.branch;
    assert(after.window == last.window && after.cache == last.cache);
    assert(last.window.active.contains_key(o));
    assert(last.window.branch == b) by {
        assert(filling(first, first, clean)) by {
            assert forall|p: u64| !#[trigger] among(first.task.offsets, 0, p) by {}
        }
        lemma_filled::<S>(run, clean, run.len() - 1);
    }
    assert(page_start(m.key.1));
    assert((m.key.1 + x) / 4096 * 4096 == m.key.1 && (m.key.1 + x) % 4096 == x);
    assert(visible_page::<S>(last.cache, b, m.key.0, m.key.1) == visible_page::<S>(first.cache, b, m.key.0, m.key.1));
}

proof fn lemma_filled_well<S: ForkableNodeStore>(run: Seq<Moment<Identity<S>>>, after: Moment<Identity<S>>, clean: bool)
    requires
        run.len() > 0,
        run[0].task == TaskView::fresh(DaxKind::Activate, run[0].task.offsets, run[0].task.planned, run[0].task.window_ends),
        run[0].task.wf(run[0].window),
        run_on::<S>(run, clean),
        ends::<S>(run.last(), after, Ok(())),
    ensures
        forall|j: int| 0 <= j < run.len() ==> (#[trigger] run[j]).task.failure is None && run[j].task.kind is Activate,
{
    let last = run.last();
    assert(filling(run[0], run[0], clean)) by {
        assert forall|p: u64| !#[trigger] among(run[0].task.offsets, 0, p) by {}
    }
    lemma_filled::<S>(run, clean, run.len() - 1);
    assert(last.task.failure is None);
    assert forall|j: int| 0 <= j < run.len() implies (#[trigger] run[j]).task.failure is None && run[j].task.kind is Activate by {
        lemma_failure_stays::<S>(run, clean, j, run.len() - 1);
        lemma_filled::<S>(run, clean, j);
    }
}

proof fn lemma_failure_stays<S: ForkableNodeStore>(run: Seq<Moment<Identity<S>>>, clean: bool, j: int, k: int)
    requires
        0 <= j <= k < run.len(),
        run[0].task.kind is Activate,
        run[0].task.offsets.len() > 0 ==> run[0].window.window is Some,
        filling(run[0], run[0], clean),
        run_on::<S>(run, clean),
    ensures
        run[j].task.failure is Some ==> run[k].task.failure is Some,
    decreases k - j,
{
    if j < k {
        lemma_failure_stays::<S>(run, clean, j, k - 1);
        assert(follows::<S>(run, k - 1, clean));
        lemma_filled::<S>(run, clean, k - 1);
    }
}

/// After the host has answered, a page of the window is held if and only if the host shows it: one that
/// it took in and one that it would not give up are held, and of the others the mapping is given back.
/// All other pages are held as they were.
pub proof fn pages_are_held_while_shown<I>(
    v: WindowView,
    t: TaskView,
    c: CacheView<I>,
    w: WindowView,
    u: TaskView,
    d: CacheView<I>,
    outcome: Result<(), i32>,
    r: Result<(), DaxError>,
    o: u64,
)
    requires
        went_on(v, t, c, w, u, d, outcome, r),
        t.pending is Some,
        !v.active.contains_key(t.pending->Some_0.0),
        unmap_refusal(c, v.branch, t.pending->Some_0.1) is None,
    ensures
        ({
            let (offset, mapping) = t.pending->Some_0;
            let shown = (t.kind is Activate && t.failure is None) == (outcome is Ok);
            &&& w.active.contains_key(offset) == shown
            &&& shown ==> w.active[offset] == mapping && d == c
            &&& !shown ==> d == unmapped(c, v.branch, mapping)
            &&& o != offset ==> (w.active.contains_key(o) <==> v.active.contains_key(o))
            &&& o != offset && v.active.contains_key(o) ==> w.active[o] == v.active[o]
            &&& r is Err <==> !(t.kind is Activate) && outcome is Err
            &&& t.kind is Activate && t.failure is None && outcome is Err ==> u.failure == Some(DaxError::Io(IoError::Os(outcome->Err_0)))
            &&& r is Err ==> r->Err_0 == DaxError::Io(IoError::Os(outcome->Err_0))
            &&& w.window == v.window && w.branch == v.branch
        }),
{
}

/// A node is shown if and only if a page of the window is planned to show it. Opening the nodes that are
/// shown counts each of them once more for the branch, and no other.
pub proof fn shown_nodes_are_opened_once<I>(v: CacheView<I>, b: u64, specs: Map<u64, MappingSpec>, nodes: Seq<NodeId>, count: int, n: NodeId)
    requires
        v.branches.contains_key(b),
        0 <= count <= nodes.len(),
        nodes.no_duplicates(),
        forall|k: int| 0 <= k < nodes.len() ==> open_count(v.branches[b].open, #[trigger] nodes[k]) < usize::MAX,
    ensures
        shown_nodes(specs).contains(n) <==> exists|o: u64| #[trigger] specs.contains_key(o) && specs[o].inode == n,
        ({
            let w = nodes_opened(v, b, nodes, count);
            &&& w.branches.contains_key(b)
            &&& open_count(w.branches[b].open, n) == open_count(v.branches[b].open, n) + (if nodes.take(count).contains(n) {
                1int
            } else {
                0
            })
            &&& w.branches[b].nodes == v.branches[b].nodes
            &&& w.branches[b].active == v.branches[b].active
        }),
    decreases count,
{
    if count > 0 {
        shown_nodes_are_opened_once(v, b, specs, nodes, count - 1, n);
        shown_nodes_are_opened_once(v, b, specs, nodes, count - 1, nodes[count - 1]);
        let before = nodes.take(count - 1);
        let after = nodes.take(count);
        assert(after =~= before.push(nodes[count - 1]));
        assert(!before.contains(nodes[count - 1]));
        if before.contains(n) {
            let k = choose|k: int| 0 <= k < before.len() && before[k] == n;
            assert(after[k] == n);
        }
        if n == nodes[count - 1] {
            assert(after[count - 1] == n);
        }
        if after.contains(n) && n != nodes[count - 1] {
            let k = choose|k: int| 0 <= k < after.len() && after[k] == n;
            assert(before[k] == n);
        }
    }
}

/// Why a request for a range is refused: one that is not of whole pages, reaches out of the window or
/// overflows as invalid, one without a window for want of the device, one over a page that is planned as
/// busy, and one for an inode that is none as too large.
pub proof fn refusals_tell_why(v: WindowView, inode: u64, file_offset: u64, len: u64, window_offset: u64)
    ensures
        ({
            let whole = len > 0 && len % 4096 == 0 && file_offset % 4096 == 0 && window_offset % 4096 == 0;
            let inside = v.window is Some && window_offset + len <= v.window->Some_0.1 && window_offset + len <= u64::MAX && file_offset + len <= u64::MAX;
            let free = forall|o: u64| #[trigger] v.specs.contains_key(o) ==> o < window_offset || window_offset + len <= o;
            let refusal = setup_refusal(v, inode, file_offset, len, window_offset);
            &&& refusal == Some(19i32) <==> whole && v.window is None
            &&& refusal == Some(22i32) <==> !whole || v.window is Some && !inside
            &&& refusal == Some(16i32) <==> whole && inside && !free
            &&& refusal == Some(75i32) <==> whole && inside && free && inode > 0xffff_ffff
        }),
{
}

/// A page that lies in the window and is not held yet is never refused as lying outside: it is mapped, or
/// passed over behind the end of its file, or fails for what the cache says. A page that reaches out of
/// the window is refused.
pub proof fn pages_in_the_window_can_be_filled<S: ForkableNodeStore>(
    v: WindowView,
    t: TaskView,
    c: CacheView<Identity<S>>,
    w: WindowView,
    u: TaskView,
    d: CacheView<Identity<S>>,
    step: DaxStep,
)
    requires
        step_taken::<S>(v, t, c, w, u, d, step),
        t.kind is Activate,
        t.failure is None,
        0 <= t.next < t.offsets.len(),
        v.window is Some,
        !v.active.contains_key(t.offsets[t.next]),
    ensures
        t.offsets[t.next] + 4096 <= v.window->Some_0.1 ==> (u.failure matches Some(e) ==> e is Cache),
        t.offsets[t.next] + 4096 > v.window->Some_0.1 ==> u.failure == Some(DaxError::Io(IoError::Os(22i32))) && d == c,
        w == v,
{
}

/// A window is refilled page by page: each page that is planned is taken in once, in order, and no other.
/// It is emptied likewise of the pages that it holds. A request begins with nothing done.
pub proof fn requests_reach_every_page(v: WindowView, task: TaskView, window_ends: bool, i: int, j: int, o: u64)
    ensures
        refills(v, task, window_ends) ==> {
            &&& task.kind is Activate
            &&& v.specs.contains_key(o) <==> exists|k: int| 0 <= k < task.offsets.len() && #[trigger] task.offsets[k] == o
        },
        empties(v, task, window_ends) ==> {
            &&& task.kind is Suspend
            &&& v.active.contains_key(o) <==> exists|k: int| 0 <= k < task.offsets.len() && #[trigger] task.offsets[k] == o
        },
        refills(v, task, window_ends) || empties(v, task, window_ends) ==> {
            &&& 0 <= i < j < task.offsets.len() ==> task.offsets[i] < task.offsets[j]
            &&& task.next == 0 && task.activated.len() == 0 && task.pending is None && task.failure is None
            &&& !task.planned && task.window_ends == window_ends
        },
{
    if refills(v, task, window_ends) || empties(v, task, window_ends) {
        if task.offsets.contains(o) {
            let k = choose|k: int| 0 <= k < task.offsets.len() && task.offsets[k] == o;
            assert(task.offsets[k] == o);
        }
        if exists|k: int| 0 <= k < task.offsets.len() && #[trigger] task.offsets[k] == o {
            assert(task.offsets.contains(o));
        }
    }
}

/// The removal of a range begins with its first page and goes on page by page. Where all its pages are
/// planned it reaches over the whole range; otherwise it ends with the first that is not.
pub proof fn removal_goes_on_to_the_first_gap(v: WindowView, window_offset: u64, len: u64, task: TaskView, i: int)
    requires
        len > 0,
        len % 4096 == 0,
        window_offset + len <= u64::MAX,
        removes(v, window_offset, len, task),
    ensures
        task.kind is Remove && task.next == 0 && task.pending is None && task.failure is None,
        0 < task.offsets.len() <= len / 4096,
        0 <= i < task.offsets.len() ==> task.offsets[i] == window_offset + 4096 * i,
        0 <= i < task.offsets.len() - 1 ==> v.specs.contains_key(task.offsets[i]),
        (forall|o: u64| window_offset <= o < window_offset + len && (o - window_offset) % 4096 == 0 ==> #[trigger] v.specs.contains_key(o))
            ==> task.offsets.len() == len / 4096,
        task.offsets.len() < len / 4096 ==> !v.specs.contains_key(task.offsets.last()),
{
    let count = choose|count: int|
        {
            &&& 0 < count <= len as int / 4096
            &&& task == TaskView::fresh(DaxKind::Remove, #[trigger] page_offsets(window_offset, count), false, false)
            &&& forall|i: int| 0 <= i < count - 1 ==> v.specs.contains_key(#[trigger] page_offsets(window_offset, count)[i])
            &&& count == len as int / 4096 || !v.specs.contains_key(page_offsets(window_offset, count).last())
        };
    assert(task.offsets == page_offsets(window_offset, count));
    assert(task.offsets.len() == count);
    assert(task.offsets.last() == window_offset + 4096 * (count - 1));
    if count < len as int / 4096 {
        let o = task.offsets.last();
        assert(!v.specs.contains_key(o));
        assert(window_offset <= o < window_offset + len && (o - window_offset) % 4096 == 0);
    }
}

} // verus!
