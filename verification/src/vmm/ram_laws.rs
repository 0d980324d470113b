//! What a fork of guest RAM does to the bytes.

use vstd::prelude::*;

#[allow(unused_imports)]
use crate::bytes::zeros;
#[allow(unused_imports)]
use crate::census::{held, lemma_held};
#[allow(unused_imports)]
use crate::ordered::{among, ascending, Key};
#[allow(unused_imports)]
use crate::redox::durable::{above, reserved};
#[allow(unused_imports)]
use crate::vmm::error::Error;
#[allow(unused_imports)]
use crate::vmm::ram::{
    all_run_pages, branch_ram, every_page, finishes, first_stray, forks_at_once, generation_ids, generation_numbers, installs, least_stray, lists,
    named_pages, new_ram, new_ram_actions, new_ram_ids, page_ids, page_numbers, place, prepare_actions, prepared_apart, prepares, ram_size_fits,
    run_fits, run_pages, runs_cover, ungrown, unprepared, unprepared_actions, unprepared_ids, GrowView, PreparationView, RamAction, RamForkPlan,
    RamIds, RamPage, RamView,
};

verus! {

/// The bytes that operations on guest RAM work on.
#[verifier::ext_equal]
pub struct RamWorld {
    /// The contents of each page of the generation files, under generation and offset.
    pub files: Map<(u64, u64), Seq<u8>>,
    /// The contents of each page of RAM.
    pub live: Seq<Seq<u8>>,
    /// The generation and the offset that each page of RAM is mapped from.
    pub mapped: Seq<(u64, u64)>,
}

impl RamWorld {
    /// RAM that was reserved, before any generation file is mapped there.
    pub open spec fn reserved(files: Map<(u64, u64), Seq<u8>>, live: Seq<Seq<u8>>) -> RamWorld {
        RamWorld { files, live, mapped: Seq::new(live.len(), |i: int| (0u64, 0u64)) }
    }

    /// Whether each page of RAM is mapped from where the page is kept.
    pub open spec fn maps(self, pages: Seq<RamPage>) -> bool {
        &&& self.mapped.len() == pages.len()
        &&& forall|i: int| 0 <= i < pages.len() ==> #[trigger] self.mapped[i] == place(pages[i])
    }

    /// The bytes once an operation is done. A page that was let go of shows what it is mapped from.
    pub open spec fn after(self, action: RamAction) -> RamWorld {
        match action {
            RamAction::CopyPage { page, generation, offset } => RamWorld {
                files: self.files.insert((generation, offset), self.live[page as int]),
                ..self
            },
            RamAction::MapRun { start, count, generation, offset, .. } => RamWorld {
                live: Seq::new(
                    self.live.len(),
                    |i: int|
                        if start <= i < start + count {
                            self.files[(generation, (offset + 4096 * (i - start)) as u64)]
                        } else {
                            self.live[i]
                        },
                ),
                mapped: Seq::new(
                    self.mapped.len(),
                    |i: int|
                        if start <= i < start + count {
                            (generation, (offset + 4096 * (i - start)) as u64)
                        } else {
                            self.mapped[i]
                        },
                ),
                ..self
            },
            RamAction::DiscardPrivate => RamWorld { live: Seq::new(self.live.len(), |i: int| self.files[self.mapped[i]]), ..self },
            _ => self,
        }
    }

    /// The bytes once all operations are done, in order.
    pub open spec fn after_all(self, actions: Seq<RamAction>) -> RamWorld
        decreases actions.len(),
    {
        if actions.len() == 0 {
            self
        } else {
            self.after_all(actions.drop_last()).after(actions.last())
        }
    }

    /// Whether the generation files hold the contents of all pages but the given ones.
    pub open spec fn kept_but(self, pages: Seq<RamPage>, dirty: Set<usize>) -> bool {
        &&& self.live.len() == pages.len()
        &&& forall|i: int| 0 <= i < pages.len() && !dirty.contains(i as usize) ==> self.files[place(#[trigger] pages[i])] == self.live[i]
    }
}

/// Whether a page of the list is kept at this place.
pub open spec fn holds(pages: Seq<RamPage>, generation: u64, offset: u64) -> bool {
    exists|i: int| 0 <= i < pages.len() && place(#[trigger] pages[i]) == (generation, offset)
}

/// The first fork writes the dirty pages to the generation that the guest has. It then holds the
/// contents of all pages, as they are at the fork.
pub proof fn sealing_keeps_every_page(v: RamView, world: RamWorld, order: Seq<usize>, dirty: Set<usize>)
    requires
        v.wf(),
        lists(order, dirty),
        forall|k: int| 0 <= k < order.len() ==> #[trigger] order[k] < v.pages.len(),
        world.kept_but(v.pages, dirty),
    ensures
        ({
            let w = world.after_all(v.copies_in_place(order));
            &&& w.live == world.live
            &&& w.mapped == world.mapped
            &&& w.kept_but(v.pages, Set::empty())
        }),
{
    lemma_copied_in_place(v, world, order, order.len() as int);
    assert(v.copies_in_place(order).take(order.len() as int) =~= v.copies_in_place(order));
    let w = world.after_all(v.copies_in_place(order));
    assert forall|i: int| 0 <= i < v.pages.len() implies w.files[place(#[trigger] v.pages[i])] == w.live[i] by {
        assert(order.contains(i as usize) <==> dirty.contains(i as usize));
    }
}

proof fn lemma_copied_in_place(v: RamView, world: RamWorld, order: Seq<usize>, count: int)
    requires
        v.wf(),
        0 <= count <= order.len(),
        forall|k: int| 0 <= k < order.len() ==> #[trigger] order[k] < v.pages.len(),
        world.live.len() == v.pages.len(),
    ensures
        ({
            let w = world.after_all(v.copies_in_place(order).take(count));
            &&& w.live == world.live
            &&& w.mapped == world.mapped
            &&& forall|i: int| 0 <= i < v.pages.len() ==> w.files[place(#[trigger] v.pages[i])] == (if among(order, count, i as usize) {
                world.live[i]
            } else {
                world.files[place(v.pages[i])]
            })
            &&& forall|g: u64, o: u64| !holds(v.pages, g, o) ==> #[trigger] w.files[(g, o)] == world.files[(g, o)]
        }),
    decreases count,
{
    let all = v.copies_in_place(order);
    if count > 0 {
        lemma_copied_in_place(v, world, order, count - 1);
        assert(all.take(count).drop_last() =~= all.take(count - 1));
        let u = world.after_all(all.take(count - 1));
        let w = world.after_all(all.take(count));
        let page = order[count - 1] as int;
        assert(place(v.pages[page]) == (v.pages[page].generation, v.pages[page].offset));
        assert(holds(v.pages, v.pages[page].generation, v.pages[page].offset));
        crate::ordered::lemma_among(order, count - 1);
        assert forall|i: int| 0 <= i < v.pages.len() implies w.files[place(#[trigger] v.pages[i])] == (if among(order, count, i as usize) {
            world.live[i]
        } else {
            world.files[place(v.pages[i])]
        }) by {
            if i < page {
                assert(place(v.pages[i]) != place(v.pages[page]));
            } else if page < i {
                assert(place(v.pages[page]) != place(v.pages[i]));
            }
        }
    } else {
        assert(all.take(0) =~= Seq::<RamAction>::empty());
    }
}

/// A later fork writes the dirty pages to a generation of its own. Its pages, together with those
/// of earlier generations that did not change, then hold the contents of all pages as they are at
/// the fork, and nothing that other guests have is written to.
pub proof fn later_forks_keep_every_page(
    v: RamView,
    world: RamWorld,
    preparation: PreparationView,
    order: Seq<usize>,
    dirty: Set<usize>,
    ids: RamIds,
    generation: u64,
    offset: u64,
)
    requires
        v.wf(),
        v.private,
        preparation.fits(v),
        !preparation.seals,
        lists(order, dirty),
        forall|k: int| 0 <= k < order.len() ==> #[trigger] order[k] < v.pages.len(),
        world.live.len() == v.pages.len(),
        forall|p: usize| #[trigger] preparation.pages.contains_key(p) && !dirty.contains(p) ==> world.files[place(preparation.pages[p])]
            == world.live[p as int],
        forall|i: int|
            0 <= i < v.pages.len() && !dirty.contains(i as usize) && !preparation.pages.contains_key(i as usize) ==> world.files[place(
                #[trigger] v.pages[i],
            )] == world.live[i],
        generation != preparation.generation,
    ensures
        ({
            let (grown, actions, _) = v.plan(preparation, order, ids);
            let w = world.after_all(actions);
            &&& w.live == world.live
            &&& w.mapped == world.mapped
            &&& w.kept_but(v.installed(grown).pages, Set::empty())
            &&& w.files[(generation, offset)] == world.files[(generation, offset)]
        }),
{
    let start = ungrown(preparation, ids.next_page);
    crate::vmm::ram::lemma_keys_below(preparation.pages, v.pages.len());
    lemma_grown(v, world, preparation, start, order, order.len() as int);
    let g = start.grown(preparation.generation, order, order.len() as int);
    let (grown, actions, _) = v.plan(preparation, order, ids);
    let w = world.after_all(actions);
    let pages = v.installed(grown).pages;
    assert forall|i: int| 0 <= i < pages.len() implies w.files[place(#[trigger] pages[i])] == w.live[i] by {
        let p = i as usize;
        assert(order.contains(p) <==> dirty.contains(p));
        if grown.pages.contains_key(p) {
            if !among(order, order.len() as int, p) {
                assert(preparation.pages.contains_key(p));
            }
        } else {
            assert(v.pages[i].generation != preparation.generation);
        }
    }
}

/// How far copying has come once the first `count` dirty pages are copied.
proof fn lemma_grown(v: RamView, world: RamWorld, preparation: PreparationView, start: GrowView, order: Seq<usize>, count: int)
    requires
        v.wf(),
        preparation.fits(v),
        !preparation.seals,
        start == ungrown(preparation, start.next_page),
        0 <= count <= order.len(),
        forall|k: int| 0 <= k < order.len() ==> #[trigger] order[k] < v.pages.len(),
        world.live.len() == v.pages.len(),
    ensures
        ({
            let g = start.grown(preparation.generation, order, count);
            let w = world.after_all(g.actions);
            &&& w.live == world.live
            &&& w.mapped == world.mapped
            &&& g.pages.dom().finite()
            &&& g.next_offset == 4096 * g.pages.dom().len()
            &&& g.pages.dom().len() <= v.pages.len()
            &&& forall|p: usize| #[trigger] g.pages.contains_key(p) <==> preparation.pages.contains_key(p) || among(order, count, p)
            &&& forall|p: usize| #[trigger] preparation.pages.contains_key(p) ==> g.pages[p] == preparation.pages[p]
            &&& forall|p: usize| #[trigger] g.pages.contains_key(p) ==> p < v.pages.len() && g.pages[p].generation == preparation.generation
                && g.pages[p].offset < g.next_offset
            &&& forall|p: usize, q: usize|
                p != q && g.pages.contains_key(p) && g.pages.contains_key(q) ==> (#[trigger] g.pages[p]).offset != (#[trigger] g.pages[q]).offset
            &&& forall|p: usize| #[trigger] g.pages.contains_key(p) ==> w.files[place(g.pages[p])] == (if among(order, count, p) {
                world.live[p as int]
            } else {
                world.files[place(g.pages[p])]
            })
            &&& forall|generation: u64, offset: u64|
                generation != preparation.generation ==> #[trigger] w.files[(generation, offset)] == world.files[(generation, offset)]
        }),
    decreases count,
{
    let generation = preparation.generation;
    crate::vmm::ram::lemma_keys_below(preparation.pages, v.pages.len());
    if count > 0 {
        lemma_grown(v, world, preparation, start, order, count - 1);
        let h = start.grown(generation, order, count - 1);
        let g = start.grown(generation, order, count);
        let u = world.after_all(h.actions);
        let w = world.after_all(g.actions);
        let page = order[count - 1];
        assert(order[count - 1] < v.pages.len());
        crate::ordered::lemma_among(order, count - 1);
        if h.pages.contains_key(page) {
            assert(g.actions.drop_last() =~= h.actions);
        } else {
            let grow = RamAction::GrowGeneration { generation, len: (h.next_offset + 4096) as u64 };
            assert(g.actions.drop_last() =~= h.actions.push(grow));
            assert(h.actions.push(grow).drop_last() =~= h.actions);
            assert(world.after_all(h.actions.push(grow)) == u);
            assert(g.pages.dom() =~= h.pages.dom().insert(page));
            assert forall|p: usize| #[trigger] g.pages.contains_key(p) implies p < v.pages.len() by {
                if p != page {
                    assert(h.pages.contains_key(p));
                }
            }
            crate::vmm::ram::lemma_keys_below(g.pages, v.pages.len());
            assert(g.next_offset == h.next_offset + 4096);
        }
        assert forall|p: usize, q: usize| p != q && g.pages.contains_key(p) && g.pages.contains_key(q) implies (#[trigger] g.pages[p]).offset != (#[trigger] g.pages[q]).offset by {
            if p != page {
                assert(h.pages.contains_key(p));
            }
            if q != page {
                assert(h.pages.contains_key(q));
            }
        }
        let target = g.pages[page];
        assert(w.files == u.files.insert(place(target), world.live[page as int]));
        assert forall|p: usize| #[trigger] g.pages.contains_key(p) implies w.files[place(g.pages[p])] == (if among(order, count, p) {
            world.live[p as int]
        } else {
            world.files[place(g.pages[p])]
        }) by {
            if p != page {
                assert(h.pages.contains_key(p));
                assert(g.pages[p].offset != g.pages[page].offset);
            }
        }
        assert forall|gen: u64, offset: u64| gen != preparation.generation implies #[trigger] w.files[(gen, offset)] == world.files[(gen, offset)] by {
            assert(u.files[(gen, offset)] == world.files[(gen, offset)]);
        }
    }
}

/// Pages that are copied before the pause are in a generation of their own: each holds the page's
/// contents at the time, and nothing that any guest has is written to.
pub proof fn preparing_writes_nothing_shared(
    v: RamView,
    world: RamWorld,
    preparation: PreparationView,
    actions: Seq<RamAction>,
    order: Seq<usize>,
    was: RamIds,
    now: RamIds,
)
    requires
        v.wf(),
        v.drawn_from(was),
        ascending::<usize>(order),
        prepared_apart(preparation, actions, order, was, now),
        forall|k: int| 0 <= k < order.len() ==> #[trigger] order[k] < v.pages.len(),
        world.live.len() == v.pages.len(),
    ensures
        ({
            let w = world.after_all(actions);
            &&& w.live == world.live
            &&& w.mapped == world.mapped
            &&& forall|p: usize| #[trigger] preparation.pages.contains_key(p) ==> w.files[place(preparation.pages[p])] == world.live[p as int]
            &&& forall|i: int| 0 <= i < v.pages.len() ==> w.files[place(#[trigger] v.pages[i])] == world.files[place(v.pages[i])]
        }),
{
    crate::vmm::ram::lemma_list_len(order, v.pages.len());
    lemma_prepared(v, world, was.next_generation, order, order.len() as int);
    let w = world.after_all(actions);
    assert forall|p: usize| #[trigger] preparation.pages.contains_key(p) implies w.files[place(preparation.pages[p])] == world.live[p as int] by {
        let k = choose|k: int| 0 <= k < order.len() && order[k] == p;
        assert(preparation.pages[order[k]].offset == 4096 * k);
    }
    assert forall|i: int| 0 <= i < v.pages.len() implies w.files[place(#[trigger] v.pages[i])] == world.files[place(v.pages[i])] by {
        assert(v.pages[i].generation < was.next_generation);
    }
}

proof fn lemma_prepared(v: RamView, world: RamWorld, generation: u64, order: Seq<usize>, count: int)
    requires
        v.wf(),
        0 <= count <= order.len() <= v.pages.len(),
        forall|k: int| 0 <= k < order.len() ==> #[trigger] order[k] < v.pages.len(),
        world.live.len() == v.pages.len(),
    ensures
        ({
            let w = world.after_all(prepare_actions(generation, order, count));
            &&& w.live == world.live
            &&& w.mapped == world.mapped
            &&& forall|k: int| 0 <= k < count ==> w.files[(generation, (4096 * k) as u64)] == world.live[#[trigger] order[k] as int]
            &&& forall|g: u64, offset: u64| g != generation ==> #[trigger] w.files[(g, offset)] == world.files[(g, offset)]
        }),
    decreases count,
{
    let actions = prepare_actions(generation, order, count);
    if count > 0 {
        lemma_prepared(v, world, generation, order, count - 1);
        assert(actions.drop_last() =~= prepare_actions(generation, order, count - 1));
        let u = world.after_all(prepare_actions(generation, order, count - 1));
        let w = world.after_all(actions);
        assert(w.files == u.files.insert((generation, (4096 * (count - 1)) as u64), world.live[order[count - 1] as int]));
    } else {
        assert(actions.drop_last() =~= Seq::<RamAction>::empty());
        assert(world.after_all(Seq::<RamAction>::empty()) == world);
        assert(actions.last() is CreateGeneration);
    }
}

/// Once all pages of a branch are mapped, its RAM holds what its pages hold. So a branch that is
/// made at a fork has the source's RAM as it was at the fork.
pub proof fn mapping_shows_the_pages(v: RamView, world: RamWorld, selected: Seq<usize>, runs: Seq<RamAction>, private: bool, i: int)
    requires
        v.wf(),
        world.live.len() == v.pages.len(),
        world.mapped.len() == v.pages.len(),
        runs_cover(v.pages, selected, runs, private),
        0 <= i < v.pages.len(),
    ensures
        world.after_all(runs).files == world.files,
        world.after_all(runs).live.len() == world.live.len(),
        world.after_all(runs).mapped.len() == world.mapped.len(),
        world.after_all(runs).mapped[i] == (if selected.contains(i as usize) {
            place(v.pages[i])
        } else {
            world.mapped[i]
        }),
        world.after_all(runs).live[i] == (if selected.contains(i as usize) {
            world.files[place(v.pages[i])]
        } else {
            world.live[i]
        }),
{
    lemma_mapped(v, world, runs, private, i);
}

proof fn lemma_mapped(v: RamView, world: RamWorld, runs: Seq<RamAction>, private: bool, i: int)
    requires
        v.wf(),
        world.live.len() == v.pages.len(),
        world.mapped.len() == v.pages.len(),
        forall|k: int| 0 <= k < runs.len() ==> run_fits(v.pages, #[trigger] runs[k], private),
        0 <= i < v.pages.len(),
    ensures
        world.after_all(runs).files == world.files,
        world.after_all(runs).live.len() == world.live.len(),
        world.after_all(runs).mapped.len() == world.mapped.len(),
        world.after_all(runs).mapped[i] == (if all_run_pages(runs).contains(i as usize) {
            place(v.pages[i])
        } else {
            world.mapped[i]
        }),
        world.after_all(runs).live[i] == (if all_run_pages(runs).contains(i as usize) {
            world.files[place(v.pages[i])]
        } else {
            world.live[i]
        }),
    decreases runs.len(),
{
    if runs.len() > 0 {
        let rest = runs.drop_last();
        assert forall|k: int| 0 <= k < rest.len() implies run_fits(v.pages, #[trigger] rest[k], private) by {
            assert(rest[k] == runs[k]);
        }
        lemma_mapped(v, world, rest, private, i);
        let run = runs.last();
        assert(run_fits(v.pages, runs[runs.len() - 1], private));
        let before = all_run_pages(rest);
        let all = all_run_pages(runs);
        assert(all == before + run_pages(run));
        match run {
            RamAction::MapRun { start, count, generation, offset, .. } => {
                if start <= i < start + count {
                    assert(v.pages[start + (i - start)].offset == offset + 4096 * (i - start));
                    assert(run_pages(run)[i - start] == i as usize);
                    assert(all[before.len() + (i - start)] == i as usize);
                } else {
                    if all.contains(i as usize) {
                        let k = choose|k: int| 0 <= k < all.len() && all[k] == i as usize;
                        if k < before.len() {
                            assert(before[k] == i as usize);
                        } else {
                            assert(run_pages(run)[k - before.len()] == i as usize);
                        }
                    }
                    if before.contains(i as usize) {
                        let k = choose|k: int| 0 <= k < before.len() && before[k] == i as usize;
                        assert(all[k] == i as usize);
                    }
                }
            },
            _ => {},
        }
    } else {
        assert(!all_run_pages(runs).contains(i as usize));
    }
}

proof fn lemma_after_both(world: RamWorld, first: Seq<RamAction>, second: Seq<RamAction>)
    ensures
        world.after_all(first + second) == world.after_all(first).after_all(second),
    decreases second.len(),
{
    if second.len() == 0 {
        assert(first + second =~= first);
    } else {
        lemma_after_both(world, first, second.drop_last());
        assert((first + second).drop_last() =~= first + second.drop_last());
        assert((first + second).last() == second.last());
    }
}

/// A fork gives the child the RAM of its source as it is at the fork, byte for byte, and leaves the
/// source's as it is: also once the copied pages are in place of the source's own and the pages that
/// it wrote were let go of. All of the source's pages are then mapped from where they are kept. The
/// first fork of a guest writes only to places that this guest alone has; a later one writes only to
/// a generation that nobody has yet.
pub proof fn forked_ram_is_the_source_ram(
    v: RamView,
    plan: RamForkPlan,
    dirty: Set<usize>,
    was: RamIds,
    now: RamIds,
    world: RamWorld,
    installed: Seq<RamAction>,
    reserved: Seq<Seq<u8>>,
    runs: Seq<RamAction>,
)
    requires
        v.wf(),
        v.private,
        v.drawn_from(was),
        forks_at_once(v, plan, dirty, was, now),
        forall|p: usize| #[trigger] dirty.contains(p) ==> p < v.pages.len(),
        world.kept_but(v.pages, dirty),
        world.maps(v.pages),
        installs(v, plan.preparation(), installed),
        reserved.len() == v.pages.len(),
        runs_cover(v.installed(plan.preparation()).pages, every_page(v.pages.len() as int), runs, true),
    ensures
        ({
            let w = world.after_all(plan.spec_actions());
            &&& w.live == world.live
            &&& w.kept_but(v.installed(plan.preparation()).pages, Set::empty())
            &&& w.after_all(installed).live == world.live
            &&& w.after_all(installed).maps(v.installed(plan.preparation()).pages)
            &&& w.after_all(installed).files == w.files
            &&& RamWorld::reserved(w.files, reserved).after_all(runs).live == world.live
            &&& forall|g: u64, o: u64|
                (if v.sealed { g != was.next_generation } else { !holds(v.pages, g, o) }) ==> #[trigger] w.files[(g, o)] == world.files[(g, o)]
        }),
{
    let order = choose|order: Seq<usize>|
        {
            let planned = v.plan(unprepared(v, was), order, unprepared_ids(v, was));
            &&& #[trigger] lists(order, dirty)
            &&& plan.preparation() == planned.0
            &&& plan.spec_actions() == unprepared_actions(v, was) + planned.1
            &&& now == planned.2
        };
    let unprepared = unprepared(v, was);
    let planned = v.plan(unprepared, order, unprepared_ids(v, was));
    let first = unprepared_actions(v, was);
    let w = world.after_all(plan.spec_actions());
    assert forall|k: int| 0 <= k < order.len() implies #[trigger] order[k] < v.pages.len() by {
        assert(order.contains(order[k]));
        assert(dirty.contains(order[k]));
    }
    lemma_after_both(world, first, planned.1);
    assert(world.after_all(first) == world) by {
        reveal_with_fuel(RamWorld::after_all, 2);
        if v.sealed {
            assert(first.drop_last() =~= Seq::<RamAction>::empty());
        }
    }
    if v.sealed {
        assert forall|g: u64, o: u64| g != was.next_generation implies #[trigger] w.files[(g, o)] == world.files[(g, o)] by {
            later_forks_keep_every_page(v, world, unprepared, order, dirty, unprepared_ids(v, was), g, o);
        }
        assert(was.next_generation != v.pages[0].generation);
        later_forks_keep_every_page(v, world, unprepared, order, dirty, unprepared_ids(v, was), v.pages[0].generation, 0);
        crate::vmm::ram::lemma_installed_wf(v, plan.preparation());
    } else {
        sealing_keeps_every_page(v, world, order, dirty);
        lemma_copied_in_place(v, world, order, order.len() as int);
        assert(v.copies_in_place(order).take(order.len() as int) =~= v.copies_in_place(order));
    }
    lemma_source_shows(v, plan.preparation(), w, installed);
    lemma_child_shows(v.installed(plan.preparation()), w, reserved, runs);
}

/// So does a fork that is prepared while the guest still runs. What the guest writes meanwhile is among
/// the pages that are dirty at the pause, and the child has the RAM of its source as it is at the pause.
pub proof fn prepared_fork_is_the_source_ram(
    v: RamView,
    taken: Seq<usize>,
    preparation: PreparationView,
    prepared: Seq<RamAction>,
    before: RamWorld,
    ids: RamIds,
    paused: Seq<Seq<u8>>,
    captured: Seq<usize>,
    plan: RamForkPlan,
    was: RamIds,
    now: RamIds,
    installed: Seq<RamAction>,
    reserved: Seq<Seq<u8>>,
    runs: Seq<RamAction>,
)
    requires
        v.wf(),
        v.private,
        v.drawn_from(ids),
        prepares(v, taken, preparation, prepared, ids, was),
        before.kept_but(v.pages, v.dirty + named_pages(taken)),
        before.maps(v.pages),
        installs(v, plan.preparation(), installed),
        paused.len() == v.pages.len(),
        forall|i: int| 0 <= i < paused.len() && !(v.dirty + named_pages(captured)).contains(i as usize) ==> #[trigger] paused[i] == before.live[i],
        forall|k: int| 0 <= k < captured.len() ==> #[trigger] captured[k] < v.pages.len(),
        finishes(v, preparation, captured, plan, was, now),
        reserved.len() == v.pages.len(),
        runs_cover(v.installed(plan.preparation()).pages, every_page(v.pages.len() as int), runs, true),
    ensures
        ({
            let world = RamWorld { files: before.after_all(prepared).files, live: paused, mapped: before.mapped };
            let w = world.after_all(plan.spec_actions());
            &&& w.live == paused
            &&& w.kept_but(v.installed(plan.preparation()).pages, Set::empty())
            &&& w.after_all(installed).live == paused
            &&& w.after_all(installed).maps(v.installed(plan.preparation()).pages)
            &&& w.after_all(installed).files == w.files
            &&& RamWorld::reserved(w.files, reserved).after_all(runs).live == paused
        }),
{
    let dirty = v.dirty + named_pages(captured);
    let first = choose|order: Seq<usize>|
        {
            &&& #[trigger] lists(order, named_pages(taken))
            &&& forall|k: int| 0 <= k < order.len() ==> #[trigger] order[k] < v.pages.len()
            &&& if v.sealed {
                prepared_apart(preparation, prepared, order, ids, was)
            } else {
                &&& preparation == (PreparationView { generation: v.pages[0].generation, pages: Map::empty(), seals: true })
                &&& prepared == v.copies_in_place(order)
                &&& was == ids
            }
        };
    let second = choose|order: Seq<usize>|
        {
            &&& #[trigger] lists(order, v.dirty + named_pages(captured))
            &&& (plan.preparation(), plan.spec_actions(), now) == v.plan(preparation, order, was)
        };
    let world = RamWorld { files: before.after_all(prepared).files, live: paused, mapped: before.mapped };
    let w = world.after_all(plan.spec_actions());
    assert forall|k: int| 0 <= k < second.len() implies #[trigger] second[k] < v.pages.len() by {
        assert(second.contains(second[k]));
        assert(dirty.contains(second[k]));
    }
    if v.sealed {
        preparing_writes_nothing_shared(v, before, preparation, prepared, first, ids, was);
        assert forall|i: int|
            0 <= i < v.pages.len() && !dirty.contains(i as usize) && !preparation.pages.contains_key(i as usize) implies world.files[place(
            #[trigger] v.pages[i],
        )] == world.live[i] by {
            assert(among(first, first.len() as int, i as usize) <==> first.contains(i as usize));
            assert(first.contains(i as usize) <==> named_pages(taken).contains(i as usize));
            assert(paused[i] == before.live[i]);
        }
        later_forks_keep_every_page(v, world, preparation, second, dirty, was, v.pages[0].generation, 0);
        crate::vmm::ram::lemma_installed_wf(v, plan.preparation());
    } else {
        lemma_copied_in_place(v, before, first, first.len() as int);
        assert(v.copies_in_place(first).take(first.len() as int) =~= v.copies_in_place(first));
        assert forall|i: int| 0 <= i < v.pages.len() && !dirty.contains(i as usize) implies world.files[place(#[trigger] v.pages[i])] == world.live[i] by {
            assert(first.contains(i as usize) <==> named_pages(taken).contains(i as usize));
            assert(paused[i] == before.live[i]);
        }
        sealing_keeps_every_page(v, world, second, dirty);
    }
    lemma_source_shows(v, plan.preparation(), w, installed);
    lemma_child_shows(v.installed(plan.preparation()), w, reserved, runs);
}

/// A source whose pages were put in place shows what it showed.
proof fn lemma_source_shows(v: RamView, preparation: PreparationView, world: RamWorld, actions: Seq<RamAction>)
    requires
        v.wf(),
        v.private,
        v.installed(preparation).wf(),
        world.kept_but(v.installed(preparation).pages, Set::empty()),
        world.maps(v.pages),
        installs(v, preparation, actions),
    ensures
        world.after_all(actions).live == world.live,
        world.after_all(actions).maps(v.installed(preparation).pages),
        world.after_all(actions).files == world.files,
{
    let after = v.installed(preparation);
    let w = world.after_all(actions);
    if preparation.seals {
        assert(actions.drop_last() =~= Seq::<RamAction>::empty());
        reveal_with_fuel(RamWorld::after_all, 2);
        assert(w == world.after(RamAction::DiscardPrivate));
        assert forall|i: int| 0 <= i < v.pages.len() implies #[trigger] w.live[i] == world.live[i] by {
            assert(world.mapped[i] == place(v.pages[i]));
            assert(world.files[place(after.pages[i])] == world.live[i]);
        }
        assert(w.live =~= world.live);
    } else {
        let changed = choose|changed: Seq<usize>|
            {
                &&& #[trigger] lists(changed, preparation.pages.dom())
                &&& runs_cover(after.pages, changed, actions, true)
            };
        assert forall|i: int| 0 <= i < v.pages.len() implies {
            &&& #[trigger] w.live[i] == world.live[i]
            &&& w.mapped[i] == place(after.pages[i])
            &&& w.live.len() == world.live.len()
            &&& w.mapped.len() == world.mapped.len()
            &&& w.files == world.files
        } by {
            mapping_shows_the_pages(after, world, changed, actions, true, i);
            assert(changed.contains(i as usize) <==> preparation.pages.dom().contains(i as usize));
            assert(world.files[place(after.pages[i])] == world.live[i]);
            assert(world.mapped[i] == place(v.pages[i]));
        }
        assert(w.live[0] == world.live[0]);
        assert(w.live =~= world.live);
    }
}

/// New RAM has as many pages as fit its length, each with an identity that nobody had.
pub proof fn new_pages_are_apart(len: usize, ids: RamIds, other: RamView)
    requires
        ram_size_fits(len),
        other.drawn_from(ids),
        ids.next_page + len / 4096 <= u64::MAX,
        ids.next_generation < u64::MAX,
    ensures
        ({
            let v = new_ram(len, ids);
            &&& v.pages_apart()
            &&& v.drawn_from(new_ram_ids(len, ids))
            &&& other.drawn_from(new_ram_ids(len, ids))
            &&& forall|id: u64| #[trigger] page_ids(v.pages).contains(id) ==> !page_ids(other.pages).contains(id)
        }),
{
}

/// How far the identities have come once the first `count` dirty pages are copied.
proof fn lemma_grown_ids(start: GrowView, generation: u64, order: Seq<usize>, count: int, limit: int)
    requires
        0 <= count <= order.len(),
        start.next_page + order.len() <= u64::MAX,
        forall|p: usize| #[trigger] start.pages.contains_key(p) ==> limit <= start.pages[p].id < start.next_page,
        limit <= start.next_page,
        forall|p: usize, q: usize|
            p != q && start.pages.contains_key(p) && start.pages.contains_key(q) ==> (#[trigger] start.pages[p]).id != (#[trigger] start.pages[q]).id,
    ensures
        ({
            let g = start.grown(generation, order, count);
            &&& start.next_page <= g.next_page <= start.next_page + count
            &&& forall|p: usize| #[trigger] g.pages.contains_key(p) ==> limit <= g.pages[p].id < g.next_page && (g.pages[p].generation == generation
                || start.pages.contains_key(p) && g.pages[p] == start.pages[p])
            &&& forall|p: usize, q: usize|
                p != q && g.pages.contains_key(p) && g.pages.contains_key(q) ==> (#[trigger] g.pages[p]).id != (#[trigger] g.pages[q]).id
        }),
    decreases count,
{
    if count > 0 {
        lemma_grown_ids(start, generation, order, count - 1, limit);
        let h = start.grown(generation, order, count - 1);
        let g = start.grown(generation, order, count);
        let page = order[count - 1];
        if !h.pages.contains_key(page) {
            assert forall|p: usize, q: usize|
                p != q && g.pages.contains_key(p) && g.pages.contains_key(q) implies (#[trigger] g.pages[p]).id != (#[trigger] g.pages[q]).id by {
                if p != page {
                    assert(h.pages.contains_key(p));
                }
                if q != page {
                    assert(h.pages.contains_key(q));
                }
            }
        }
    }
}

/// Putting pages in place keeps identities apart, where those of the pages are new.
proof fn lemma_installed_apart(v: RamView, preparation: PreparationView, was: RamIds, now: RamIds)
    requires
        v.pages_apart(),
        v.drawn_from(was),
        was.next_page <= now.next_page,
        was.next_generation <= now.next_generation,
        forall|p: usize| #[trigger] preparation.pages.contains_key(p) ==> was.next_page <= preparation.pages[p].id < now.next_page
            && preparation.pages[p].generation < now.next_generation,
        forall|p: usize, q: usize|
            p != q && preparation.pages.contains_key(p) && preparation.pages.contains_key(q) ==> (#[trigger] preparation.pages[p]).id
                != (#[trigger] preparation.pages[q]).id,
        v.pages.len() <= usize::MAX,
    ensures
        v.installed(preparation).pages_apart(),
        v.installed(preparation).drawn_from(now),
{
    let w = v.installed(preparation);
    assert forall|i: int, j: int| 0 <= i < j < w.pages.len() implies (#[trigger] w.pages[i]).id != (#[trigger] w.pages[j]).id by {
        assert(v.pages[i].id != v.pages[j].id);
        assert(v.pages[i].id < was.next_page && v.pages[j].id < was.next_page);
    }
    assert forall|i: int| 0 <= i < w.pages.len() implies (#[trigger] w.pages[i]).generation < now.next_generation && w.pages[i].id < now.next_page by {
        assert(v.pages[i].id < was.next_page);
    }
}

/// Once identities of saved pages are set aside, the saved RAM counts as drawn from the source, and
/// so does all RAM that did before.
pub proof fn reserved_identities_are_drawn(saved: RamView, other: RamView, was: RamIds, now: RamIds)
    requires
        reserved(was.next_page, page_numbers(saved.pages), now.next_page),
        reserved(was.next_generation, generation_numbers(saved.pages), now.next_generation),
        forall|i: int| 0 <= i < saved.pages.len() ==> (#[trigger] saved.pages[i]).id < u64::MAX && saved.pages[i].generation < u64::MAX,
        other.drawn_from(was),
    ensures
        saved.drawn_from(now),
        other.drawn_from(now),
{
    assert forall|i: int| 0 <= i < saved.pages.len() implies (#[trigger] saved.pages[i]).generation < now.next_generation && saved.pages[i].id
        < now.next_page by {
        assert(above(page_numbers(saved.pages)[i]) <= now.next_page);
        assert(above(generation_numbers(saved.pages)[i]) <= now.next_generation);
    }
}

/// A fork leaves the guest with as many pages as before, no two with the same identity, and each
/// that is new with an identity that nobody had.
pub proof fn forks_keep_pages_apart(v: RamView, plan: RamForkPlan, dirty: Set<usize>, was: RamIds, now: RamIds)
    requires
        v.wf(),
        v.pages_apart(),
        v.drawn_from(was),
        forks_at_once(v, plan, dirty, was, now),
        forall|p: usize| #[trigger] dirty.contains(p) ==> p < v.pages.len(),
        was.next_page + v.pages.len() <= u64::MAX,
        was.next_generation < u64::MAX,
    ensures
        v.installed(plan.preparation()).pages.len() == v.pages.len(),
        v.installed(plan.preparation()).pages_apart(),
        v.installed(plan.preparation()).drawn_from(now),
{
    let order = choose|order: Seq<usize>|
        {
            let planned = v.plan(unprepared(v, was), order, unprepared_ids(v, was));
            &&& #[trigger] lists(order, dirty)
            &&& plan.preparation() == planned.0
            &&& plan.spec_actions() == unprepared_actions(v, was) + planned.1
            &&& now == planned.2
        };
    lemma_planned_apart(v, unprepared(v, was), order, dirty, was, unprepared_ids(v, was), now);
}

/// So does a fork that is prepared while the guest still runs.
pub proof fn prepared_forks_keep_pages_apart(
    v: RamView,
    taken: Seq<usize>,
    preparation: PreparationView,
    prepared: Seq<RamAction>,
    ids: RamIds,
    captured: Seq<usize>,
    plan: RamForkPlan,
    was: RamIds,
    now: RamIds,
)
    requires
        v.wf(),
        v.pages_apart(),
        v.drawn_from(ids),
        prepares(v, taken, preparation, prepared, ids, was),
        forall|k: int| 0 <= k < captured.len() ==> #[trigger] captured[k] < v.pages.len(),
        finishes(v, preparation, captured, plan, was, now),
        ids.next_page + 2 * v.pages.len() <= u64::MAX,
        ids.next_generation < u64::MAX,
    ensures
        v.installed(plan.preparation()).pages.len() == v.pages.len(),
        v.installed(plan.preparation()).pages_apart(),
        v.installed(plan.preparation()).drawn_from(now),
{
    let first = choose|order: Seq<usize>|
        {
            &&& #[trigger] lists(order, named_pages(taken))
            &&& forall|k: int| 0 <= k < order.len() ==> #[trigger] order[k] < v.pages.len()
            &&& if v.sealed {
                prepared_apart(preparation, prepared, order, ids, was)
            } else {
                &&& preparation == (PreparationView { generation: v.pages[0].generation, pages: Map::empty(), seals: true })
                &&& prepared == v.copies_in_place(order)
                &&& was == ids
            }
        };
    let dirty = v.dirty + named_pages(captured);
    let second = choose|order: Seq<usize>|
        {
            &&& #[trigger] lists(order, v.dirty + named_pages(captured))
            &&& (plan.preparation(), plan.spec_actions(), now) == v.plan(preparation, order, was)
        };
    if v.sealed {
        crate::vmm::ram::lemma_list_len(first, v.pages.len());
        assert forall|p: usize| #[trigger] preparation.pages.contains_key(p) implies ids.next_page <= preparation.pages[p].id < was.next_page
            && preparation.pages[p].generation == preparation.generation by {
            let k = choose|k: int| 0 <= k < first.len() && first[k] == p;
            assert(preparation.pages[first[k]].id == ids.next_page + k);
        }
        assert forall|p: usize, q: usize|
            p != q && preparation.pages.contains_key(p) && preparation.pages.contains_key(q) implies (#[trigger] preparation.pages[p]).id
            != (#[trigger] preparation.pages[q]).id by {
            let k = choose|k: int| 0 <= k < first.len() && first[k] == p;
            let m = choose|k: int| 0 <= k < first.len() && first[k] == q;
            assert(preparation.pages[first[k]].id == ids.next_page + k);
            assert(preparation.pages[first[m]].id == ids.next_page + m);
        }
    }
    lemma_planned_apart(v, preparation, second, dirty, ids, was, now);
}

proof fn lemma_planned_apart(
    v: RamView,
    preparation: PreparationView,
    order: Seq<usize>,
    dirty: Set<usize>,
    first: RamIds,
    was: RamIds,
    now: RamIds,
)
    requires
        v.wf(),
        v.pages_apart(),
        v.drawn_from(first),
        lists(order, dirty),
        forall|p: usize| #[trigger] dirty.contains(p) ==> p < v.pages.len(),
        first.next_page <= was.next_page,
        first.next_generation <= was.next_generation,
        was.next_page + v.pages.len() <= u64::MAX,
        !preparation.seals ==> preparation.generation < was.next_generation,
        preparation.seals ==> preparation.pages == Map::<usize, RamPage>::empty(),
        forall|p: usize| #[trigger] preparation.pages.contains_key(p) ==> first.next_page <= preparation.pages[p].id < was.next_page
            && preparation.pages[p].generation == preparation.generation,
        forall|p: usize, q: usize|
            p != q && preparation.pages.contains_key(p) && preparation.pages.contains_key(q) ==> (#[trigger] preparation.pages[p]).id
                != (#[trigger] preparation.pages[q]).id,
        now == v.plan(preparation, order, was).2,
    ensures
        v.installed(v.plan(preparation, order, was).0).pages_apart(),
        v.installed(v.plan(preparation, order, was).0).drawn_from(now),
{
    assert forall|k: int| 0 <= k < order.len() implies #[trigger] order[k] < v.pages.len() by {
        assert(order.contains(order[k]));
        assert(dirty.contains(order[k]));
    }
    crate::vmm::ram::lemma_list_len(order, v.pages.len());
    let start = ungrown(preparation, was.next_page);
    lemma_grown_ids(start, preparation.generation, order, order.len() as int, first.next_page as int);
    lemma_installed_apart(v, v.plan(preparation, order, was).0, first, now);
}

/// Where no two pages have the same identity, a guest has as many resident pages as its RAM has
/// pages, and so have all guests together that have just these pages.
pub proof fn resident_pages_are_the_ram_pages(v: RamView, guests: nat)
    requires
        v.pages_apart(),
        guests > 0,
    ensures
        page_ids(v.pages).finite(),
        page_ids(v.pages).len() == v.pages.len(),
        held(Seq::new(guests, |i: int| page_ids(v.pages))) == page_ids(v.pages),
    decreases v.pages.len(),
{
    let sets = Seq::new(guests, |i: int| page_ids(v.pages));
    assert forall|id: u64| held(sets).contains(id) <==> page_ids(v.pages).contains(id) by {
        lemma_held(sets, id);
        assert(sets[0] == page_ids(v.pages));
    }
    assert(held(sets) =~= page_ids(v.pages));
    if v.pages.len() == 0 {
        assert(page_ids(v.pages) =~= Set::<u64>::empty());
    } else {
        let rest = RamView { pages: v.pages.drop_last(), ..v };
        let last = v.pages.last();
        resident_pages_are_the_ram_pages(rest, 1);
        assert(!page_ids(rest.pages).contains(last.id)) by {
            if page_ids(rest.pages).contains(last.id) {
                let i = choose|i: int| 0 <= i < rest.pages.len() && (#[trigger] rest.pages[i]).id == last.id;
                assert(v.pages[i].id != v.pages[v.pages.len() - 1].id);
            }
        }
        assert(page_ids(v.pages) =~= page_ids(rest.pages).insert(last.id)) by {
            assert forall|id: u64| page_ids(v.pages).contains(id) <==> page_ids(rest.pages).insert(last.id).contains(id) by {
                if page_ids(v.pages).contains(id) {
                    let i = choose|i: int| 0 <= i < v.pages.len() && (#[trigger] v.pages[i]).id == id;
                    if i < rest.pages.len() {
                        assert(rest.pages[i].id == id);
                    }
                }
                if page_ids(rest.pages).contains(id) {
                    let i = choose|i: int| 0 <= i < rest.pages.len() && (#[trigger] rest.pages[i]).id == id;
                    assert(v.pages[i].id == id);
                }
                if id == last.id {
                    assert(v.pages[v.pages.len() - 1].id == id);
                }
            }
        }
    }
}

/// A child whose pages are all mapped shows what the files hold of them.
proof fn lemma_child_shows(v: RamView, world: RamWorld, reserved: Seq<Seq<u8>>, runs: Seq<RamAction>)
    requires
        v.wf(),
        world.kept_but(v.pages, Set::empty()),
        reserved.len() == v.pages.len(),
        runs_cover(v.pages, every_page(v.pages.len() as int), runs, true),
    ensures
        RamWorld::reserved(world.files, reserved).after_all(runs).live == world.live,
{
    let child = RamWorld::reserved(world.files, reserved);
    let shown = child.after_all(runs).live;
    assert forall|i: int| 0 <= i < v.pages.len() implies #[trigger] shown[i] == world.live[i] && shown.len() == world.live.len() by {
        mapping_shows_the_pages(v, child, every_page(v.pages.len() as int), runs, true, i);
        assert(every_page(v.pages.len() as int)[i] == i as usize);
        assert(every_page(v.pages.len() as int).contains(i as usize));
        assert(world.files[place(v.pages[i])] == world.live[i]);
    }
    assert(shown[0] == world.live[0]);
    assert(shown =~= world.live);
}

/// A bit of the hypervisor's dirty log marks one page: bit `b` of word `w` is page `64 * w + b`. The
/// pages that a fork takes for written to are those, of the pages that RAM has, and the ones that the
/// host has written to, and no others.
pub proof fn dirty_log_marks_its_pages(v: RamView, log: Seq<u64>, page: usize)
    ensures
        forall|word: int, bit: u64|
            #![trigger log[word], log[word] >> bit]
            0 <= word < log.len() && bit < 64 && page == 64 * word + bit && page < v.pages.len() ==> (v.dirty_with(log).contains(page)
                <==> v.dirty.contains(page) || (log[word] >> bit) % 2 == 1),
        page >= v.pages.len() || page >= 64 * log.len() ==> (v.dirty_with(log).contains(page) <==> v.dirty.contains(page)),
{
    assert forall|word: int, bit: u64|
        #![trigger log[word], log[word] >> bit]
        0 <= word < log.len() && bit < 64 && page == 64 * word + bit && page < v.pages.len() implies (v.dirty_with(log).contains(page)
        <==> v.dirty.contains(page) || (log[word] >> bit) % 2 == 1) by {
        let stored = log[word];
        assert((stored & (1u64 << bit) != 0) == ((stored >> bit) % 2 == 1)) by (bit_vector)
            requires
                bit < 64,
        ;
        assert(page as int / 64 == word && page as int % 64 == bit as int);
    }
}

/// A log in which only one bit is set marks only that bit's page.
pub proof fn one_bit_marks_one_page(v: RamView, log: Seq<u64>, word: int, bit: u64, page: usize)
    requires
        0 <= word < log.len(),
        bit < 64,
        forall|w: int| 0 <= w < log.len() ==> #[trigger] log[w] == (if w == word { 1u64 << bit } else { 0u64 }),
        !v.dirty.contains(page),
    ensures
        v.dirty_with(log).contains(page) <==> page == 64 * word + bit && page < v.pages.len(),
{
    dirty_log_marks_its_pages(v, log, page);
    if page < v.pages.len() && page < 64 * log.len() {
        let w = page as int / 64;
        let b = (page % 64) as u64;
        let stored = log[w];
        assert(page == 64 * w + b);
        assert((stored >> b) % 2 == 1 <==> v.dirty_with(log).contains(page));
        assert(((1u64 << bit) >> b) % 2 == (if b == bit { 1u64 } else { 0u64 })) by (bit_vector)
            requires
                b < 64,
                bit < 64,
        ;
        assert((0u64 >> b) % 2 == 0) by (bit_vector);
    }
}

/// A host write notes exactly the pages in which one of its bytes lies, besides those that were noted.
pub proof fn host_writes_are_noted(v: RamView, offset: int, len: int)
    requires
        v.wf(),
        0 <= offset,
        0 <= len,
        offset + len <= v.len(),
    ensures
        forall|address: int| #![trigger v.written(offset, len).dirty.contains((address / 4096) as usize)]
            offset <= address < offset + len ==> v.written(offset, len).dirty.contains((address / 4096) as usize),
        forall|page: usize| #[trigger] v.dirty.contains(page) ==> v.written(offset, len).dirty.contains(page),
        forall|page: usize| #[trigger]
            v.written(offset, len).dirty.contains(page) ==> v.dirty.contains(page) || exists|address: int|
                offset <= address < offset + len && #[trigger] (address / 4096) == page,
        v.written(offset, len).pages == v.pages,
        v.written(offset, len).private == v.private,
        v.written(offset, len).sealed == v.sealed,
        v.written(offset, len).wf(),
{
    let w = v.written(offset, len);
    assert forall|page: usize| #[trigger] w.dirty.contains(page) implies v.dirty.contains(page) || exists|address: int|
        offset <= address < offset + len && #[trigger] (address / 4096) == page by {
        if !v.dirty.contains(page) {
            let address = if offset / 4096 == page { offset } else { page * 4096 };
            assert(offset <= address < offset + len && address / 4096 == page);
        }
    }
    assert forall|address: int| #![trigger w.dirty.contains((address / 4096) as usize)]
        offset <= address < offset + len implies w.dirty.contains((address / 4096) as usize) by {
        assert(0 <= address / 4096 <= usize::MAX);
    }
}

/// The pages of RAM that hold the bytes of a guest's memory.
pub open spec fn in_pages(memory: Seq<u8>) -> Seq<Seq<u8>> {
    Seq::new(memory.len() / 4096, |i: int| memory.subrange(4096 * i, 4096 * i + 4096))
}

/// What the host writes to a guest's memory is not lost to a fork: where the generation files hold
/// all pages but those noted as written to, and `others`, they still do after the write.
pub proof fn host_writes_stay_kept(v: RamView, world: RamWorld, others: Set<usize>, was: Seq<u8>, now: Seq<u8>, offset: int, len: int)
    requires
        v.wf(),
        was.len() == v.len(),
        now.len() == v.len(),
        0 <= offset,
        0 <= len,
        offset + len <= v.len(),
        forall|a: int| 0 <= a < was.len() && !(offset <= a < offset + len) ==> #[trigger] now[a] == was[a],
        world.live == in_pages(was),
        world.kept_but(v.pages, v.dirty + others),
    ensures
        (RamWorld { live: in_pages(now), ..world }).kept_but(v.pages, v.written(offset, len).dirty + others),
{
    let w = v.written(offset, len);
    let after = RamWorld { live: in_pages(now), ..world };
    host_writes_are_noted(v, offset, len);
    assert forall|i: int| 0 <= i < v.pages.len() && !(w.dirty + others).contains(i as usize) implies after.files[place(#[trigger] v.pages[i])]
        == after.live[i] by {
        assert(world.files[place(v.pages[i])] == world.live[i]);
        assert forall|a: int| 4096 * i <= a < 4096 * i + 4096 implies now[a] == was[a] by {
            if offset <= a < offset + len {
                assert(a / 4096 == i);
                assert(w.dirty.contains((a / 4096) as usize));
            }
        }
        assert(now.subrange(4096 * i, 4096 * i + 4096) =~= was.subrange(4096 * i, 4096 * i + 4096));
    }
}

/// A fork that is made with the hypervisor's dirty log gives the child the RAM of its source as it is
/// at the fork, if each page that differs from the generation it is mapped from was written to by the
/// host or has its bit set in the log.
pub proof fn fork_carries_every_store(
    v: RamView,
    log: Seq<u64>,
    plan: RamForkPlan,
    was: RamIds,
    now: RamIds,
    world: RamWorld,
    installed: Seq<RamAction>,
    reserved: Seq<Seq<u8>>,
    runs: Seq<RamAction>,
)
    requires
        v.wf(),
        v.private,
        v.drawn_from(was),
        forks_at_once(v, plan, v.dirty_with(log), was, now),
        world.live.len() == v.pages.len(),
        forall|i: int|
            0 <= i < v.pages.len() && world.files[place(#[trigger] v.pages[i])] != world.live[i] ==> v.dirty.contains(i as usize) || (i / 64
                < log.len() && (log[i / 64] >> ((i % 64) as u64)) % 2 == 1),
        world.maps(v.pages),
        installs(v, plan.preparation(), installed),
        reserved.len() == v.pages.len(),
        runs_cover(v.installed(plan.preparation()).pages, every_page(v.pages.len() as int), runs, true),
    ensures
        ({
            let w = world.after_all(plan.spec_actions());
            &&& w.after_all(installed).live == world.live
            &&& RamWorld::reserved(w.files, reserved).after_all(runs).live == world.live
        }),
{
    let dirty = v.dirty_with(log);
    assert forall|p: usize| #[trigger] dirty.contains(p) implies p < v.pages.len() by {
        dirty_log_marks_its_pages(v, log, p);
    }
    assert forall|i: int| 0 <= i < v.pages.len() && !dirty.contains(i as usize) implies world.files[place(#[trigger] v.pages[i])] == world.live[i] by {
        dirty_log_marks_its_pages(v, log, i as usize);
        if i / 64 < log.len() {
            let word = log[i / 64];
            let bit = (i % 64) as u64;
            assert(i as usize == 64 * (i / 64) + bit);
            assert((log[i / 64] >> bit) % 2 == 1 ==> dirty.contains(i as usize));
        }
    }
    forked_ram_is_the_source_ram(v, plan, dirty, was, now, world, installed, reserved, runs);
}

/// The pages that a list names are the pages in it.
pub proof fn listed_pages_are_named(pages: Seq<usize>, page: usize)
    ensures
        named_pages(pages).contains(page) <==> exists|k: int| 0 <= k < pages.len() && #[trigger] pages[k] == page,
{
}

/// Once a guest was forked, its next fork and the child's first write to no page that the other has:
/// what is at the places of the pages that both have stays there.
pub proof fn forks_leave_shared_pages(
    v: RamView,
    plan: RamForkPlan,
    dirty: Set<usize>,
    was: RamIds,
    now: RamIds,
    of_child: bool,
    next: RamForkPlan,
    written: Set<usize>,
    later: RamIds,
    world: RamWorld,
    i: int,
)
    requires
        v.wf(),
        v.drawn_from(was),
        v.pages_apart(),
        forall|p: usize| #[trigger] dirty.contains(p) ==> p < v.pages.len(),
        was.next_page + v.pages.len() <= u64::MAX,
        was.next_generation < u64::MAX,
        forks_at_once(v, plan, dirty, was, now),
        v.installed(plan.preparation()).wf(),
        forall|p: usize| #[trigger] written.contains(p) ==> p < v.pages.len(),
        forks_at_once(
            if of_child {
                branch_ram(v.installed(plan.preparation()).pages)
            } else {
                v.installed(plan.preparation()).forked()
            },
            next,
            written,
            now,
            later,
        ),
        world.live.len() == v.pages.len(),
        0 <= i < v.pages.len(),
    ensures
        ({
            let kept = place(v.installed(plan.preparation()).pages[i]);
            world.after_all(next.spec_actions()).files[kept] == world.files[kept]
        }),
{
    let source = v.installed(plan.preparation());
    let ram = if of_child {
        branch_ram(source.pages)
    } else {
        source.forked()
    };
    forks_keep_pages_apart(v, plan, dirty, was, now);
    assert(source.drawn_from(now));
    assert(ram.wf());
    let kept = place(source.pages[i]);
    lemma_plan_writes_apart(ram, next, written, now, later, world, kept.0, kept.1);
}

/// A fork of sealed RAM writes to its own new generation only.
proof fn lemma_plan_writes_apart(
    v: RamView,
    plan: RamForkPlan,
    dirty: Set<usize>,
    was: RamIds,
    now: RamIds,
    world: RamWorld,
    generation: u64,
    offset: u64,
)
    requires
        v.wf(),
        v.private,
        v.sealed,
        v.drawn_from(was),
        forks_at_once(v, plan, dirty, was, now),
        forall|p: usize| #[trigger] dirty.contains(p) ==> p < v.pages.len(),
        world.live.len() == v.pages.len(),
        generation != was.next_generation,
    ensures
        world.after_all(plan.spec_actions()).files[(generation, offset)] == world.files[(generation, offset)],
{
    let order = choose|order: Seq<usize>|
        {
            let planned = v.plan(unprepared(v, was), order, unprepared_ids(v, was));
            &&& #[trigger] lists(order, dirty)
            &&& plan.preparation() == planned.0
            &&& plan.spec_actions() == unprepared_actions(v, was) + planned.1
            &&& now == planned.2
        };
    let start = ungrown(unprepared(v, was), unprepared_ids(v, was).next_page);
    lemma_grown_in(start, was.next_generation, order, order.len() as int);
    lemma_other_files(world, plan.spec_actions(), generation, offset);
}

proof fn lemma_grown_in(start: GrowView, generation: u64, order: Seq<usize>, count: int)
    requires
        start.actions.len() == 0,
    ensures
        forall|k: int| 0 <= k < start.grown(generation, order, count).actions.len() ==> (#[trigger] start.grown(generation, order, count).actions[k] matches RamAction::CopyPage {
            generation: g,
            ..
        } ==> g == generation),
    decreases count,
{
    if count > 0 {
        lemma_grown_in(start, generation, order, count - 1);
    }
}

proof fn lemma_other_files(world: RamWorld, actions: Seq<RamAction>, generation: u64, offset: u64)
    requires
        forall|k: int| 0 <= k < actions.len() ==> (#[trigger] actions[k] matches RamAction::CopyPage { generation: g, .. } ==> g != generation),
    ensures
        world.after_all(actions).files[(generation, offset)] == world.files[(generation, offset)],
    decreases actions.len(),
{
    if actions.len() > 0 {
        assert forall|k: int| 0 <= k < actions.drop_last().len() implies (#[trigger] actions.drop_last()[k] matches RamAction::CopyPage {
            generation: g,
            ..
        } ==> g != generation) by {
            assert(actions.drop_last()[k] == actions[k]);
        }
        lemma_other_files(world, actions.drop_last(), generation, offset);
        assert(actions.last() == actions[actions.len() - 1]);
    }
}

/// New RAM has a page for each of its pages' places, one behind the other in a generation that nobody
/// has; where that generation is filled with zeros, RAM reads as zeros.
pub proof fn new_ram_shows_zeros(len: usize, ids: RamIds, world: RamWorld, i: int)
    requires
        ram_size_fits(len),
        ids.next_page + len / 4096 <= u64::MAX,
        ids.next_generation < u64::MAX,
        world.live.len() == len / 4096,
        world.mapped.len() == len / 4096,
        forall|k: int| 0 <= k < len / 4096 ==> #[trigger] world.files[(ids.next_generation, (4096 * k) as u64)] == zeros(4096),
        0 <= i < len / 4096,
    ensures
        ({
            let v = new_ram(len, ids);
            let w = world.after_all(new_ram_actions(len, ids));
            &&& v.wf()
            &&& v.len() == len
            &&& v.dirty == Set::<usize>::empty()
            &&& v.private && !v.sealed
            &&& w.live[i] == zeros(4096)
            &&& w.mapped[i] == place(v.pages[i])
            &&& new_ram_actions(len, ids)[0] == (RamAction::CreateGeneration { generation: ids.next_generation, len: len as u64 })
            &&& new_ram_actions(len, ids).len() == 2
            &&& new_ram_actions(len, ids)[1] matches RamAction::MapRun { private, .. } && private
        }),
{
    let actions = new_ram_actions(len, ids);
    let v = new_ram(len, ids);
    assert(actions.drop_last().drop_last() =~= Seq::<RamAction>::empty());
    assert(actions.drop_last().last() == actions[0]);
    reveal_with_fuel(RamWorld::after_all, 4);
    let before = world.after_all(actions.drop_last());
    assert(before == world);
    assert(world.files[(ids.next_generation, (4096 * i) as u64)] == zeros(4096));
    assert(v.pages[i].offset == 4096 * i);
}

/// The page identities and the generations that guests are counted by are those of their pages.
pub proof fn counted_by_their_pages(pages: Seq<RamPage>, number: u64)
    ensures
        page_ids(pages).contains(number) <==> exists|i: int| 0 <= i < pages.len() && (#[trigger] pages[i]).id == number,
        generation_ids(pages).contains(number) <==> exists|i: int| 0 <= i < pages.len() && (#[trigger] pages[i]).generation == number,
{
}

/// RAM consists of whole pages, of one at least.
pub proof fn ram_consists_of_whole_pages(len: usize)
    ensures
        ram_size_fits(len) <==> exists|pages: int| pages > 0 && len == #[trigger] (pages * 4096),
{
    if ram_size_fits(len) {
        assert(len == (len as int / 4096) * 4096);
    }
}

/// Each run maps pages that follow each other both in RAM and in one file, in the way asked for, and is as
/// long as it can be: where one run ends and the next begins, one or the other does not go on.
pub proof fn runs_are_as_long_as_they_can_be(pages: Seq<RamPage>, selected: Seq<usize>, runs: Seq<RamAction>, private: bool, k: int, j: int)
    requires
        pages.len() <= usize::MAX,
        runs_cover(pages, selected, runs, private),
        0 <= k < runs.len(),
    ensures
        runs[k] matches RamAction::MapRun { start, count, generation, offset, private: p } && {
            &&& p == private
            &&& count > 0
            &&& start + count <= pages.len()
            &&& 0 <= j < count ==> pages[start + j].generation == generation && pages[start + j].offset == offset + 4096 * j
            &&& k > 0 ==> (runs[k - 1] matches RamAction::MapRun { start: s, count: c, generation: g, offset: o, private: q } && !(start == s + c
                && generation == g && offset == o + 4096 * c))
        },
{
    assert(run_fits(pages, runs[k], private));
    if k > 0 {
        assert(run_fits(pages, runs[k - 1], private));
        if let (
            RamAction::MapRun { start, count, generation, offset, private: p },
            RamAction::MapRun { start: s, count: c, generation: g, offset: o, private: q },
        ) = (runs[k], runs[k - 1]) {
            assert(pages[start + 0].generation == generation && pages[start + 0].offset == offset);
            assert(pages[s + (c - 1)].generation == g && pages[s + (c - 1)].offset == o + 4096 * (c - 1));
            assert(run_pages(runs[k])[0] == start);
            assert(run_pages(runs[k - 1]).last() == s + (c - 1));
        }
    }
}

/// The file that a preparation makes has room for exactly the pages that are copied to it.
pub proof fn copies_fill_the_file(preparation: PreparationView, actions: Seq<RamAction>, order: Seq<usize>, was: RamIds, now: RamIds, k: int)
    requires
        prepared_apart(preparation, actions, order, was, now),
        4096 * order.len() <= u64::MAX,
    ensures
        actions.len() == 1 + order.len(),
        actions[0] == (RamAction::CreateGeneration { generation: was.next_generation, len: (4096 * order.len()) as u64 }),
        1 <= k < actions.len() ==> (actions[k] matches RamAction::CopyPage { page, generation, offset } && {
            &&& page == order[k - 1]
            &&& generation == was.next_generation
            &&& offset == 4096 * (k - 1)
        }),
{
}

/// What is installed of a preparation is the pages that it has, in RAM that is mapped privately and whose
/// file was not sealed in place; all else stays.
pub proof fn only_prepared_pages_are_installed(ram: RamView, preparation: PreparationView, i: int)
    requires
        0 <= i < ram.pages.len() <= usize::MAX,
    ensures
        ({
            let now = ram.installed(preparation);
            &&& now.pages.len() == ram.pages.len()
            &&& !ram.private || preparation.seals || !preparation.pages.contains_key(i as usize) ==> now.pages[i] == ram.pages[i]
            &&& ram.private && !preparation.seals && preparation.pages.contains_key(i as usize) ==> now.pages[i] == preparation.pages[i as usize]
            &&& now.dirty == ram.dirty && now.private == ram.private && now.sealed == ram.sealed
        }),
{
}

/// A page is stray if and only if it lies outside RAM, and the error names it and the size of RAM: the
/// first stray page of a list, or the least.
pub proof fn strays_lie_outside(pages: Seq<usize>, count: usize, e: Error)
    ensures
        first_stray(pages, count as nat, e) ==> (e matches Error::InvalidDirtyPage { page, pages: size } && {
            &&& size == count && page >= count && pages.contains(page)
            &&& exists|i: int| 0 <= i < pages.len() && #[trigger] pages[i] == page && forall|j: int| 0 <= j < i ==> #[trigger] pages[j] < count
        }),
        least_stray(pages, count as nat, e) ==> (e matches Error::InvalidDirtyPage { page, pages: size } && {
            &&& size == count && page >= count && pages.contains(page)
            &&& forall|other: usize| #[trigger] pages.contains(other) && other >= count ==> page <= other
        }),
        (exists|i: int| 0 <= i < pages.len() && #[trigger] pages[i] >= count) <==> exists|f: Error| #[trigger] first_stray(pages, count as nat, f),
{
    if first_stray(pages, count as nat, e) {
        let i = choose|i: int|
            {
                &&& 0 <= i < pages.len()
                &&& #[trigger] pages[i] >= count
                &&& e == (Error::InvalidDirtyPage { page: pages[i], pages: count })
                &&& forall|j: int| 0 <= j < i ==> #[trigger] pages[j] < count
            };
        assert(pages.contains(pages[i]));
    }
    if exists|i: int| 0 <= i < pages.len() && #[trigger] pages[i] >= count {
        let i = choose|i: int| 0 <= i < pages.len() && #[trigger] pages[i] >= count;
        lemma_first_stray(pages, count, i);
    }
}

proof fn lemma_first_stray(pages: Seq<usize>, count: usize, i: int)
    requires
        0 <= i < pages.len(),
        pages[i] >= count,
    ensures
        exists|f: Error| #[trigger] first_stray(pages, count as nat, f),
    decreases i,
{
    if exists|j: int| 0 <= j < i && #[trigger] pages[j] >= count {
        let j = choose|j: int| 0 <= j < i && #[trigger] pages[j] >= count;
        lemma_first_stray(pages, count, j);
    } else {
        assert(first_stray(pages, count as nat, Error::InvalidDirtyPage { page: pages[i], pages: count }));
    }
}

} // verus!
