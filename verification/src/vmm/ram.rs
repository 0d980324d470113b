//! The page table of a guest's RAM, and what a fork has to copy and map.
//!
//! Guest RAM is mapped, page by page, from generation files that do not change once they are
//! shared. The bytes themselves are moved outside; here stands which page is copied where and
//! which runs of pages are mapped from where.

use vstd::prelude::*;
use vstd::slice::slice_subrange;

use crate::bytes::lay_over_slice;
#[allow(unused_imports)]
use crate::bytes::{bytes_at, laid_over};
use crate::census::Census;
#[allow(unused_imports)]
use crate::census::{held, held_twice};
use crate::ordered::{OrdMap, OrdSet};
#[allow(unused_imports)]
use crate::ordered::{among, ascending, lemma_among, Key};
#[allow(unused_imports)]
use crate::redox::durable::{above, reserved};
use crate::vmm::error::Error;

verus! {

pub const RAM_PAGE_SIZE: usize = 4096;

/// Where the contents of a page of RAM are: at an offset of a generation file.
#[derive(Clone, Copy, Debug, Eq, PartialEq, Structural)]
pub struct RamPage {
    pub id: u64,
    pub generation: u64,
    pub offset: u64,
}

/// Where new identities come from; all guests draw from one source.
#[derive(Debug)]
pub struct RamIds {
    pub next_page: u64,
    pub next_generation: u64,
}

impl RamIds {
    pub fn new() -> (ids: Self)
        ensures
            ids == (RamIds { next_page: 1, next_generation: 1 }),
    {
        RamIds { next_page: 1, next_generation: 1 }
    }

    /// Lets new identities begin above those of pages that were saved.
    pub fn reserve(&mut self, pages: &Vec<RamPage>)
        ensures
            reserved(old(self).next_page, page_numbers(pages@), final(self).next_page),
            reserved(old(self).next_generation, generation_numbers(pages@), final(self).next_generation),
    {
        let n: usize = pages.len();
        let mut i: usize = 0;
        let ghost ids = page_numbers(pages@);
        let ghost generations = generation_numbers(pages@);
        while i < n
            invariant
                i <= n,
                n == pages@.len(),
                ids == page_numbers(pages@),
                generations == generation_numbers(pages@),
                old(self).next_page <= self.next_page,
                old(self).next_generation <= self.next_generation,
                forall|j: int| 0 <= j < i ==> above(#[trigger] ids[j]) <= self.next_page,
                forall|j: int| 0 <= j < i ==> above(#[trigger] generations[j]) <= self.next_generation,
                self.next_page == old(self).next_page || exists|j: int| 0 <= j < i && self.next_page == above(#[trigger] ids[j]),
                self.next_generation == old(self).next_generation || exists|j: int|
                    0 <= j < i && self.next_generation == above(#[trigger] generations[j]),
            decreases n - i,
        {
            let page: RamPage = pages[i];
            assert(ids[i as int] == page.id && generations[i as int] == page.generation);
            let past_id: u64 = page.id.saturating_add(1);
            if past_id > self.next_page {
                self.next_page = past_id;
            }
            let past_generation: u64 = page.generation.saturating_add(1);
            if past_generation > self.next_generation {
                self.next_generation = past_generation;
            }
            i += 1;
        }
    }
}

/// The identities of the pages, in order.
pub open spec fn page_numbers(pages: Seq<RamPage>) -> Seq<u64> {
    Seq::new(pages.len(), |i: int| pages[i].id)
}

/// The generations of the pages, in order.
pub open spec fn generation_numbers(pages: Seq<RamPage>) -> Seq<u64> {
    Seq::new(pages.len(), |i: int| pages[i].generation)
}

/// An operation on guest RAM or on a generation file.
#[derive(Clone, Copy, Debug, Eq, PartialEq, Structural)]
pub enum RamAction {
    /// Make a generation file of this length, filled with zeros.
    CreateGeneration { generation: u64, len: u64 },
    /// Make a generation file this long.
    GrowGeneration { generation: u64, len: u64 },
    /// Copy a page of RAM to an offset of a generation file.
    CopyPage { page: usize, generation: u64, offset: u64 },
    /// Map a run of pages from a generation file, in place of what was mapped there.
    MapRun { start: usize, count: usize, generation: u64, offset: u64, private: bool },
    /// Let go of all pages that were written since they were mapped.
    DiscardPrivate,
}

/// A contiguous memory slot backed by page-granular immutable generations.
///
/// The first fork seals the generation that the slot was made with. Later forks copy only pages
/// that changed since the preceding fork.
#[derive(Debug)]
pub struct KvmGuestRam {
    pages: Vec<RamPage>,
    host_dirty: OrdSet<usize>,
    private: bool,
    sealed: bool,
}

/// What is known of guest RAM.
#[verifier::ext_equal]
pub struct RamView {
    pub pages: Seq<RamPage>,
    /// The pages that the host has written to.
    pub dirty: Set<usize>,
    pub private: bool,
    pub sealed: bool,
}

impl View for KvmGuestRam {
    type V = RamView;

    closed spec fn view(&self) -> RamView {
        RamView { pages: self.pages@, dirty: self.host_dirty@, private: self.private, sealed: self.sealed }
    }
}

/// The place of a page's contents.
pub open spec fn place(page: RamPage) -> (u64, u64) {
    (page.generation, page.offset)
}

impl RamView {
    pub open spec fn wf(self) -> bool {
        &&& self.pages.len() > 0
        &&& self.pages.len() * 4096 <= usize::MAX
        &&& forall|p: usize| #[trigger] self.dirty.contains(p) ==> p < self.pages.len()
        &&& forall|i: int| 0 <= i < self.pages.len() ==> (#[trigger] self.pages[i]).offset + 4096 <= u64::MAX
        &&& forall|i: int, j: int| 0 <= i < j < self.pages.len() ==> place(#[trigger] self.pages[i]) != place(#[trigger] self.pages[j])
    }

    pub open spec fn len(self) -> nat {
        self.pages.len() * 4096
    }

    /// The RAM once the host has written `len` bytes at `offset`.
    pub open spec fn written(self, offset: int, len: int) -> RamView {
        RamView { dirty: self.dirty + Set::new(|p: usize| len > 0 && offset / 4096 <= p <= (offset + len - 1) / 4096), ..self }
    }
}

/// Whether a run of pages can be mapped as one from the generation file.
pub open spec fn run_fits(pages: Seq<RamPage>, action: RamAction, private: bool) -> bool {
    match action {
        RamAction::MapRun { start, count, generation, offset, private: p } => {
            &&& p == private
            &&& 0 < count
            &&& start + count <= pages.len()
            &&& forall|j: int|
                0 <= j < count ==> (#[trigger] pages[start + j]).generation == generation && pages[start + j].offset == offset + 4096 * j
        },
        _ => false,
    }
}

/// Whether page `i` lies right behind page `i - 1` in its generation file.
pub open spec fn follows(pages: Seq<RamPage>, i: int) -> bool {
    pages[i].generation == pages[i - 1].generation && pages[i].offset == pages[i - 1].offset + 4096
}

/// The pages of a run.
pub open spec fn run_pages(action: RamAction) -> Seq<usize> {
    match action {
        RamAction::MapRun { start, count, .. } => Seq::new(count as nat, |j: int| (start + j) as usize),
        _ => Seq::empty(),
    }
}

/// The pages of all runs, in order.
pub open spec fn all_run_pages(runs: Seq<RamAction>) -> Seq<usize>
    decreases runs.len(),
{
    if runs.len() == 0 {
        Seq::empty()
    } else {
        all_run_pages(runs.drop_last()) + run_pages(runs.last())
    }
}

/// Whether the runs map exactly the selected pages, in order, each from its place, with as few runs
/// as there can be.
pub open spec fn runs_cover(pages: Seq<RamPage>, selected: Seq<usize>, runs: Seq<RamAction>, private: bool) -> bool {
    &&& forall|k: int| 0 <= k < runs.len() ==> run_fits(pages, #[trigger] runs[k], private)
    &&& all_run_pages(runs) == selected
    &&& forall|k: int|
        0 < k < runs.len() ==> {
            let first = run_pages(#[trigger] runs[k])[0];
            let last = run_pages(runs[k - 1]).last();
            !(first == last + 1 && follows(pages, first as int))
        }
}

/// All pages of RAM with `count` pages.
pub open spec fn every_page(count: int) -> Seq<usize> {
    Seq::new(count as nat, |i: int| i as usize)
}

/// Whether RAM can have this length.
pub open spec fn ram_size_fits(len: usize) -> bool {
    len > 0 && len % 4096 == 0
}

/// RAM of the given length that nobody has written to, in a generation of its own.
pub open spec fn new_ram(len: usize, ids: RamIds) -> RamView {
    RamView {
        pages: Seq::new(
            (len / 4096) as nat,
            |i: int| RamPage { id: (ids.next_page + i) as u64, generation: ids.next_generation, offset: (i * 4096) as u64 },
        ),
        dirty: Set::empty(),
        private: true,
        sealed: false,
    }
}

/// What has to be done to have such RAM.
pub open spec fn new_ram_actions(len: usize, ids: RamIds) -> Seq<RamAction> {
    seq![
        RamAction::CreateGeneration { generation: ids.next_generation, len: len as u64 },
        RamAction::MapRun { start: 0, count: len / 4096, generation: ids.next_generation, offset: 0, private: true },
    ]
}

/// The identities left for others.
pub open spec fn new_ram_ids(len: usize, ids: RamIds) -> RamIds {
    RamIds { next_page: (ids.next_page + len / 4096) as u64, next_generation: (ids.next_generation + 1) as u64 }
}

impl KvmGuestRam {
    pub open spec fn wf(self) -> bool {
        self@.wf()
    }

    /// RAM of the given length, in a generation of its own, and what has to be done to have it.
    pub fn new(len: usize, ids: &mut RamIds) -> (r: Result<(Self, Vec<RamAction>), Error>)
        requires
            old(ids).next_page + len / 4096 <= u64::MAX,
            old(ids).next_generation < u64::MAX,
        ensures
            match r {
                Ok((ram, actions)) => {
                    &&& ram_size_fits(len)
                    &&& ram.wf()
                    &&& ram@ == new_ram(len, *old(ids))
                    &&& actions@ == new_ram_actions(len, *old(ids))
                    &&& *final(ids) == new_ram_ids(len, *old(ids))
                },
                Err(e) => {
                    &&& e == Error::InvalidRamSize(len)
                    &&& !ram_size_fits(len)
                    &&& *final(ids) == *old(ids)
                },
            },
    {
        if len == 0 || len % RAM_PAGE_SIZE != 0 {
            return Err(Error::InvalidRamSize(len));
        }
        let generation: u64 = ids.next_generation;
        let first: u64 = ids.next_page;
        ids.next_generation = generation + 1;
        let count: usize = len / RAM_PAGE_SIZE;
        let mut pages: Vec<RamPage> = Vec::new();
        let mut i: usize = 0;
        while i < count
            invariant
                i <= count,
                count == len / 4096,
                len % 4096 == 0,
                first + count <= u64::MAX,
                pages@.len() == i,
                forall|j: int| 0 <= j < i ==> #[trigger] pages@[j] == (RamPage { id: (first + j) as u64, generation, offset: (j * 4096) as u64 }),
            decreases count - i,
        {
            pages.push(RamPage { id: first + i as u64, generation, offset: i as u64 * 4096 });
            i += 1;
        }
        ids.next_page = first + count as u64;
        let ram = KvmGuestRam { pages, host_dirty: OrdSet::new(), private: true, sealed: false };
        assert(ram@ =~= new_ram(len, *old(ids)));
        let mut actions: Vec<RamAction> = Vec::new();
        actions.push(RamAction::CreateGeneration { generation, len: len as u64 });
        actions.push(RamAction::MapRun { start: 0, count, generation, offset: 0, private: true });
        assert(actions@ =~= new_ram_actions(len, *old(ids)));
        Ok((ram, actions))
    }

    pub fn len(&self) -> (len: usize)
        requires
            self.wf(),
        ensures
            len == self@.len(),
    {
        self.pages.len() * RAM_PAGE_SIZE
    }

    pub fn is_empty(&self) -> (b: bool)
        ensures
            b == (self@.len() == 0),
    {
        self.pages.len() == 0
    }

    /// Where a host access ends, if it lies within RAM.
    pub fn checked_range(&self, offset: usize, len: usize) -> (r: Result<usize, Error>)
        requires
            self.wf(),
        ensures
            match r {
                Ok(end) => end == offset + len && end <= self@.len(),
                Err(e) => offset + len > self@.len() && e == (Error::RamRange { offset, len }),
            },
    {
        let end: usize = match offset.checked_add(len) {
            Some(end) => end,
            None => {
                return Err(Error::RamRange { offset, len });
            },
        };
        if end > self.pages.len() * RAM_PAGE_SIZE {
            return Err(Error::RamRange { offset, len });
        }
        Ok(end)
    }

    /// Notes the pages that a host write reaches.
    pub fn record_write(&mut self, offset: usize, len: usize) -> (r: Result<(), Error>)
        requires
            old(self).wf(),
        ensures
            final(self).wf(),
            if offset + len > old(self)@.len() {
                r == Err::<(), Error>(Error::RamRange { offset, len }) && final(self)@ == old(self)@
            } else {
                &&& r == Ok::<(), Error>(())
                &&& final(self)@ == old(self)@.written(offset as int, len as int)
            },
    {
        let ghost before = self@;
        let end: usize = self.checked_range(offset, len)?;
        if len > 0 {
            let first: usize = offset / RAM_PAGE_SIZE;
            let last: usize = (end - 1) / RAM_PAGE_SIZE;
            assert(last < before.pages.len());
            let mut page: usize = first;
            while page <= last
                invariant
                    first <= page <= last + 1,
                    last < before.pages.len(),
                    before.pages.len() * 4096 <= usize::MAX,
                    self@ == (RamView { dirty: self@.dirty, ..before }),
                    forall|p: usize| #[trigger] self@.dirty.contains(p) <==> before.dirty.contains(p) || first <= p < page,
                decreases last + 1 - page,
            {
                self.host_dirty.insert(page);
                page += 1;
            }
        }
        assert(self@.dirty =~= before.dirty + Set::new(|p: usize| len > 0 && offset / 4096 <= p <= (offset + len - 1) / 4096));
        Ok(())
    }

    /// The runs in which the selected pages are mapped.
    fn map_runs(&self, selected: &Vec<usize>, private: bool) -> (runs: Vec<RamAction>)
        requires
            self.wf(),
            forall|i: int| 0 <= i < selected@.len() ==> #[trigger] selected@[i] < self@.pages.len(),
        ensures
            runs_cover(self@.pages, selected@, runs@, private),
    {
        let n: usize = selected.len();
        let mut runs: Vec<RamAction> = Vec::new();
        let mut i: usize = 0;
        assert(all_run_pages(runs@) =~= selected@.take(0));
        while i < n
            invariant
                i <= n,
                n == selected@.len(),
                self.wf(),
                forall|a: int| 0 <= a < selected@.len() ==> #[trigger] selected@[a] < self@.pages.len(),
                forall|k: int| 0 <= k < runs@.len() ==> run_fits(self@.pages, #[trigger] runs@[k], private),
                all_run_pages(runs@) == selected@.take(i as int),
                forall|k: int|
                    0 < k < runs@.len() ==> {
                        let first = run_pages(#[trigger] runs@[k])[0];
                        let last = run_pages(runs@[k - 1]).last();
                        !(first == last + 1 && follows(self@.pages, first as int))
                    },
                runs@.len() > 0 && i < n ==> {
                    let last = run_pages(runs@.last()).last();
                    !(selected@[i as int] == last + 1 && follows(self@.pages, selected@[i as int] as int))
                },
            decreases n - i,
        {
            let start: usize = selected[i];
            let generation: u64 = self.pages[start].generation;
            let offset: u64 = self.pages[start].offset;
            let mut count: usize = 1;
            let mut next: usize = i + 1;
            while next < n && selected[next] == start + count && self.pages[start + count].generation == generation && self.pages[start + count].offset
                == offset + 4096 * (count as u64)
                invariant
                    i < next <= n,
                    n == selected@.len(),
                    self.wf(),
                    forall|a: int| 0 <= a < selected@.len() ==> #[trigger] selected@[a] < self@.pages.len(),
                    count == next - i,
                    start + count <= self@.pages.len(),
                    forall|j: int|
                        0 <= j < count ==> (#[trigger] self@.pages[start + j]).generation == generation && self@.pages[start + j].offset == offset + 4096 * j,
                    forall|j: int| 0 <= j < count ==> #[trigger] selected@[i + j] == start + j,
                    offset + 4096 * count <= u64::MAX,
                decreases n - next,
            {
                assert(self@.pages[start + count].offset + 4096 <= u64::MAX);
                count += 1;
                next += 1;
            }
            let run = RamAction::MapRun { start, count, generation, offset, private };
            let ghost earlier = runs@;
            runs.push(run);
            proof {
                assert(runs@.drop_last() =~= earlier);
                assert forall|k: int| 0 <= k < count implies #[trigger] run_pages(run)[k] == selected@.subrange(i as int, next as int)[k] by {
                    assert(selected@[i + k] == start + k);
                }
                assert(run_pages(run) =~= selected@.subrange(i as int, next as int));
                assert(selected@.take(next as int) =~= selected@.take(i as int) + run_pages(run));
                assert(run_pages(run)[0] == start);
                assert(run_pages(run).last() == start + count - 1);
                if next < n && selected@[next as int] == start + count {
                    assert(self@.pages[start + (count - 1)].offset == offset + 4096 * (count - 1));
                }
            }
            i = next;
        }
        assert(selected@.take(n as int) =~= selected@);
        runs
    }
}

/// Whether `order` lists a set of pages in order.
pub open spec fn lists(order: Seq<usize>, set: Set<usize>) -> bool {
    &&& ascending::<usize>(order)
    &&& forall|p: usize| #[trigger] order.contains(p) <==> set.contains(p)
}

/// The pages that a slice names.
pub open spec fn named_pages(pages: Seq<usize>) -> Set<usize> {
    Set::new(|p: usize| pages.contains(p))
}

/// Whether page `p` is set in a dirty log of 64 pages to a word.
pub open spec fn logged(log: Seq<u64>, p: int) -> bool {
    p / 64 < log.len() && log[p / 64] & (1u64 << ((p % 64) as u64)) != 0
}

impl RamView {
    /// Whether all identities were drawn from the source.
    pub open spec fn drawn_from(self, ids: RamIds) -> bool {
        forall|i: int| 0 <= i < self.pages.len() ==> (#[trigger] self.pages[i]).generation < ids.next_generation && self.pages[i].id < ids.next_page
    }

    /// Whether no two pages have the same identity.
    pub open spec fn pages_apart(self) -> bool {
        forall|i: int, j: int| 0 <= i < j < self.pages.len() ==> (#[trigger] self.pages[i]).id != (#[trigger] self.pages[j]).id
    }

    /// The pages that the host has written to together with those in a dirty log.
    pub open spec fn dirty_with(self, log: Seq<u64>) -> Set<usize> {
        self.dirty + Set::new(|p: usize| p < self.pages.len() && logged(log, p as int))
    }

    /// The operations that copy pages to where they are kept now.
    pub open spec fn copies_in_place(self, order: Seq<usize>) -> Seq<RamAction> {
        Seq::new(
            order.len(),
            |k: int|
                RamAction::CopyPage {
                    page: order[k],
                    generation: self.pages[order[k] as int].generation,
                    offset: self.pages[order[k] as int].offset,
                },
        )
    }
}

/// Pages that were copied for a fork while the guest still runs.
#[derive(Debug)]
pub struct RamForkPreparation {
    generation: u64,
    pages: OrdMap<usize, RamPage>,
    seals_existing_generation: bool,
}

/// What was prepared for a fork.
#[verifier::ext_equal]
pub struct PreparationView {
    pub generation: u64,
    pub pages: Map<usize, RamPage>,
    /// Whether the fork only seals the generation that the guest has.
    pub seals: bool,
}

impl View for RamForkPreparation {
    type V = PreparationView;

    closed spec fn view(&self) -> PreparationView {
        PreparationView { generation: self.generation, pages: self.pages@, seals: self.seals_existing_generation }
    }
}

impl PreparationView {
    /// Whether the preparation is one for this RAM: its pages are in a generation that the RAM does
    /// not use yet, each at a place of its own.
    pub open spec fn fits(self, ram: RamView) -> bool {
        &&& self.seals ==> self.pages == Map::<usize, RamPage>::empty()
        &&& !self.seals ==> {
            &&& self.pages.dom().finite()
            &&& forall|p: usize| #[trigger] self.pages.contains_key(p) ==> {
                &&& p < ram.pages.len()
                &&& self.pages[p].generation == self.generation
                &&& self.pages[p].offset + 4096 <= 4096 * self.pages.dom().len()
            }
            &&& forall|p: usize, q: usize|
                p != q && self.pages.contains_key(p) && self.pages.contains_key(q) ==> (#[trigger] self.pages[p]).offset != (#[trigger] self.pages[q]).offset
            &&& forall|i: int| 0 <= i < ram.pages.len() ==> (#[trigger] ram.pages[i]).generation != self.generation
        }
    }
}

/// The pages of a set, in order.
fn in_order(set: &OrdSet<usize>) -> (order: Vec<usize>)
    ensures
        lists(order@, set@),
        set@.finite(),
        order@.len() == set@.len(),
{
    let n: usize = set.len();
    let mut order: Vec<usize> = Vec::new();
    let mut i: usize = 0;
    while i < n
        invariant
            i <= n,
            n == set.members().len(),
            set.listed(),
            order@ == set.members().take(i as int),
        decreases n - i,
    {
        order.push(*set.at(i));
        assert(set.members().take(i + 1) =~= set.members().take(i as int).push(set.members()[i as int]));
        i += 1;
    }
    assert(order@ =~= set.members());
    order
}

/// The pages that a slice names.
fn collect_pages(pages: &[usize]) -> (set: OrdSet<usize>)
    ensures
        set@ == named_pages(pages@),
{
    let mut set: OrdSet<usize> = OrdSet::new();
    let n: usize = pages.len();
    let mut i: usize = 0;
    while i < n
        invariant
            i <= n,
            n == pages@.len(),
            forall|p: usize| #[trigger] set@.contains(p) <==> among(pages@, i as int, p),
        decreases n - i,
    {
        proof {
            lemma_among(pages@, i as int);
        }
        set.insert(pages[i]);
        i += 1;
    }
    assert(set@ =~= named_pages(pages@)) by {
        assert forall|p: usize| set@.contains(p) <==> pages@.contains(p) by {}
    }
    set
}

impl KvmGuestRam {
    /// The pages that a slice names together with those in `start`, unless one lies outside RAM.
    fn checked_pages(&self, start: &OrdSet<usize>, pages: &[usize]) -> (r: Result<OrdSet<usize>, Error>)
        requires
            self.wf(),
            forall|p: usize| #[trigger] start@.contains(p) ==> p < self@.pages.len(),
        ensures
            match r {
                Ok(set) => {
                    &&& set@ == start@ + named_pages(pages@)
                    &&& forall|p: usize| #[trigger] set@.contains(p) ==> p < self@.pages.len()
                },
                Err(e) => exists|i: int|
                    {
                        &&& 0 <= i < pages@.len()
                        &&& #[trigger] pages@[i] >= self@.pages.len()
                        &&& e == (Error::InvalidDirtyPage { page: pages@[i], pages: self@.pages.len() as usize })
                        &&& forall|j: int| 0 <= j < i ==> #[trigger] pages@[j] < self@.pages.len()
                    },
            },
    {
        let total: usize = self.pages.len();
        let mut set = start.duplicate();
        let n: usize = pages.len();
        let mut i: usize = 0;
        while i < n
            invariant
                i <= n,
                n == pages@.len(),
                total == self@.pages.len(),
                forall|j: int| 0 <= j < i ==> #[trigger] pages@[j] < total,
                forall|p: usize| #[trigger] start@.contains(p) ==> p < total,
                forall|p: usize| #[trigger] set@.contains(p) <==> start@.contains(p) || exists|j: int| 0 <= j < i && #[trigger] pages@[j] == p,
            decreases n - i,
        {
            let page: usize = pages[i];
            if page >= total {
                return Err(Error::InvalidDirtyPage { page, pages: total });
            }
            let ghost earlier = set@;
            set.insert(page);
            assert forall|p: usize| #[trigger] set@.contains(p) <==> start@.contains(p) || exists|j: int| 0 <= j < i + 1 && #[trigger] pages@[j] == p by {
                if earlier.contains(p) && !start@.contains(p) {
                    let j = choose|j: int| 0 <= j < i && #[trigger] pages@[j] == p;
                    assert(pages@[j] == p);
                }
            }
            i += 1;
        }
        assert(set@ =~= start@ + named_pages(pages@)) by {
            assert forall|p: usize| set@.contains(p) <==> (start@ + named_pages(pages@)).contains(p) by {
                if pages@.contains(p) {
                    let j = choose|j: int| 0 <= j < pages@.len() && pages@[j] == p;
                    assert(pages@[j] == p);
                }
            }
        }
        Ok(set)
    }

    /// The pages that the host has written to together with those in a dirty log.
    pub fn dirty_pages(&self, log: &Vec<u64>) -> (dirty: OrdSet<usize>)
        requires
            self.wf(),
        ensures
            dirty@ == self@.dirty_with(log@),
    {
        let total: usize = self.pages.len();
        let words: usize = log.len();
        let mut dirty = self.host_dirty.duplicate();
        let mut page: usize = 0;
        while page < total
            invariant
                page <= total,
                words == log@.len(),
                total == self@.pages.len(),
                forall|p: usize| #[trigger] dirty@.contains(p) <==> self@.dirty.contains(p) || p < page && logged(log@, p as int),
            decreases total - page,
        {
            let word: usize = page / 64;
            if word < words {
                let bit: u64 = (page % 64) as u64;
                if log[word] & (1u64 << bit) != 0 {
                    dirty.insert(page);
                }
            }
            page += 1;
        }
        assert(dirty@ =~= self@.dirty + Set::new(|p: usize| p < self@.pages.len() && logged(log@, p as int)));
        dirty
    }

    /// Copies pages while the guest keeps running. Writes that race with the copies are noted by
    /// the hypervisor, and their pages copied again once the guest is paused.
    pub fn prepare_fork(&self, pages: &[usize], ids: &mut RamIds) -> (r: Result<(RamForkPreparation, Vec<RamAction>), Error>)
        requires
            self.wf(),
            self@.drawn_from(*old(ids)),
            old(ids).next_generation < u64::MAX,
            old(ids).next_page + self@.pages.len() <= u64::MAX,
        ensures
            match r {
                Ok((preparation, actions)) => prepares(self@, pages@, preparation@, actions@, *old(ids), *final(ids)),
                Err(e) => *final(ids) == *old(ids) && least_stray(pages@, self@.pages.len(), e),
            },
    {
        let set = collect_pages(pages);
        let order = in_order(&set);
        let n: usize = order.len();
        let total: usize = self.pages.len();
        let mut checked: usize = 0;
        while checked < n
            invariant
                checked <= n,
                n == order@.len(),
                total == self@.pages.len(),
                lists(order@, named_pages(pages@)),
                forall|k: int| 0 <= k < checked ==> #[trigger] order@[k] < total,
                *ids == *old(ids),
            decreases n - checked,
        {
            let page: usize = order[checked];
            if page >= total {
                assert(order@.contains(page));
                assert forall|other: usize| pages@.contains(other) && other < page implies other < total by {
                    assert(order@.contains(other));
                    let k = choose|k: int| 0 <= k < order@.len() && order@[k] == other;
                    if k > checked {
                        assert(usize::less(order@[checked as int], order@[k]));
                    }
                }
                return Err(Error::InvalidDirtyPage { page, pages: total });
            }
            checked += 1;
        }
        let mut actions: Vec<RamAction> = Vec::new();
        if !self.sealed {
            let mut i: usize = 0;
            while i < n
                invariant
                    i <= n,
                    n == order@.len(),
                    forall|k: int| 0 <= k < n ==> #[trigger] order@[k] < self@.pages.len(),
                    actions@ == self@.copies_in_place(order@).take(i as int),
                decreases n - i,
            {
                let page: usize = order[i];
                assert(order@[i as int] < self@.pages.len());
                actions.push(RamAction::CopyPage { page, generation: self.pages[page].generation, offset: self.pages[page].offset });
                assert(actions@ =~= self@.copies_in_place(order@).take(i + 1));
                i += 1;
            }
            assert(actions@ =~= self@.copies_in_place(order@));
            let preparation = RamForkPreparation { generation: self.pages[0].generation, pages: OrdMap::new(), seals_existing_generation: true };
            return Ok((preparation, actions));
        }
        let generation: u64 = ids.next_generation;
        let first: u64 = ids.next_page;
        ids.next_generation = generation + 1;
        proof {
            lemma_list_len(order@, self@.pages.len());
        }
        actions.push(RamAction::CreateGeneration { generation, len: n as u64 * 4096 });
        let mut prepared: OrdMap<usize, RamPage> = OrdMap::new();
        let mut i: usize = 0;
        while i < n
            invariant
                i <= n,
                n == order@.len(),
                n * 4096 <= usize::MAX,
                first + n <= u64::MAX,
                ids.next_generation == generation + 1,
                ids.next_page == first + i,
                ascending::<usize>(order@),
                actions@ == prepare_actions(generation, order@, i as int),
                forall|p: usize| #[trigger] prepared@.contains_key(p) <==> among(order@, i as int, p),
                forall|k: int| 0 <= k < i ==> prepared@[#[trigger] order@[k]] == (RamPage { id: (first + k) as u64, generation, offset: (4096 * k) as u64 }),
            decreases n - i,
        {
            proof {
                lemma_among(order@, i as int);
            }
            let page: usize = order[i];
            let offset: u64 = i as u64 * 4096;
            let ghost earlier = prepared@;
            actions.push(RamAction::CopyPage { page, generation, offset });
            assert(actions@ =~= prepare_actions(generation, order@, i + 1));
            let id: u64 = ids.next_page;
            ids.next_page = id + 1;
            prepared.insert(page, RamPage { id, generation, offset });
            assert forall|k: int| 0 <= k < i + 1 implies prepared@[#[trigger] order@[k]] == (RamPage {
                id: (first + k) as u64,
                generation,
                offset: (4096 * k) as u64,
            }) by {
                if k < i {
                    assert(usize::less(order@[k], order@[i as int]));
                }
            }
            i += 1;
        }
        let preparation = RamForkPreparation { generation, pages: prepared, seals_existing_generation: false };
        assert(preparation@.pages.dom() =~= set@) by {
            assert forall|p: usize| preparation@.pages.dom().contains(p) <==> set@.contains(p) by {
                assert(set@.contains(p) <==> order@.contains(p));
                assert(preparation@.pages.contains_key(p) <==> among(order@, n as int, p));
            }
        }
        proof {
            assert(prepared_apart(preparation@, actions@, order@, *old(ids), *ids));
            assert forall|p: usize| #[trigger] preparation@.pages.contains_key(p) implies p < self@.pages.len() && preparation@.pages[p].generation == generation
                && preparation@.pages[p].offset + 4096 <= 4096 * preparation@.pages.dom().len() by {
                let k = choose|k: int| 0 <= k < n && order@[k] == p;
                assert(prepared@[order@[k]].offset == 4096 * k);
            }
            assert forall|p: usize, q: usize|
                p != q && preparation@.pages.contains_key(p) && preparation@.pages.contains_key(q) implies (#[trigger] preparation@.pages[p]).offset != (#[trigger] preparation@.pages[q]).offset by {
                let k = choose|k: int| 0 <= k < n && order@[k] == p;
                let l = choose|l: int| 0 <= l < n && order@[l] == q;
                assert(prepared@[order@[k]].offset == 4096 * k);
                assert(prepared@[order@[l]].offset == 4096 * l);
            }
        }
        Ok((preparation, actions))
    }
}

/// An ascending list of numbers below `bound` is no longer than `bound`.
pub proof fn lemma_list_len(order: Seq<usize>, bound: nat)
    requires
        ascending::<usize>(order),
        forall|k: int| 0 <= k < order.len() ==> #[trigger] order[k] < bound,
    ensures
        order.len() <= bound,
    decreases order.len(),
{
    if order.len() > 0 {
        lemma_ascending_at_least(order, order.len() - 1);
        assert(order[order.len() - 1] < bound);
    }
}

proof fn lemma_ascending_at_least(order: Seq<usize>, k: int)
    requires
        ascending::<usize>(order),
        0 <= k < order.len(),
    ensures
        order[k] >= k,
    decreases k,
{
    if k > 0 {
        lemma_ascending_at_least(order, k - 1);
        assert(usize::less(order[k - 1], order[k]));
    }
}

/// What is done for the first `count` of the pages that are prepared in a generation of their own.
pub open spec fn prepare_actions(generation: u64, order: Seq<usize>, count: int) -> Seq<RamAction> {
    seq![RamAction::CreateGeneration { generation, len: (4096 * order.len()) as u64 }] + Seq::new(
        count as nat,
        |k: int| RamAction::CopyPage { page: order[k], generation, offset: (4096 * k) as u64 },
    )
}

/// Whether the pages in `order` are prepared in a new generation, one behind the other.
pub open spec fn prepared_apart(preparation: PreparationView, actions: Seq<RamAction>, order: Seq<usize>, was: RamIds, now: RamIds) -> bool {
    let generation = was.next_generation;
    &&& !preparation.seals
    &&& preparation.generation == generation
    &&& forall|p: usize| #[trigger] preparation.pages.contains_key(p) <==> among(order, order.len() as int, p)
    &&& forall|k: int|
        0 <= k < order.len() ==> preparation.pages[#[trigger] order[k]] == (RamPage {
            id: (was.next_page + k) as u64,
            generation,
            offset: (4096 * k) as u64,
        })
    &&& actions == prepare_actions(generation, order, order.len() as int)
    &&& now == (RamIds { next_page: (was.next_page + order.len()) as u64, next_generation: (generation + 1) as u64 })
}

/// How far a preparation has grown, and what was done for it.
#[verifier::ext_equal]
pub struct GrowView {
    pub pages: Map<usize, RamPage>,
    pub next_offset: u64,
    pub next_page: u64,
    pub actions: Seq<RamAction>,
}

impl GrowView {
    /// The same once a dirty page is copied, to its place or to a new one at the end of the
    /// generation.
    pub open spec fn after(self, generation: u64, page: usize) -> GrowView {
        if self.pages.contains_key(page) {
            GrowView {
                actions: self.actions.push(RamAction::CopyPage { page, generation, offset: self.pages[page].offset }),
                ..self
            }
        } else {
            let end = (self.next_offset + 4096) as u64;
            GrowView {
                pages: self.pages.insert(page, RamPage { id: self.next_page, generation, offset: self.next_offset }),
                next_offset: end,
                next_page: (self.next_page + 1) as u64,
                actions: self.actions.push(RamAction::GrowGeneration { generation, len: end }).push(
                    RamAction::CopyPage { page, generation, offset: self.next_offset },
                ),
            }
        }
    }

    /// The same once the first `count` of the dirty pages are copied.
    pub open spec fn grown(self, generation: u64, order: Seq<usize>, count: int) -> GrowView
        decreases count,
    {
        if count <= 0 {
            self
        } else {
            self.grown(generation, order, count - 1).after(generation, order[count - 1])
        }
    }
}

/// What a preparation is before any page is copied at the pause.
pub open spec fn ungrown(preparation: PreparationView, next_page: u64) -> GrowView {
    GrowView {
        pages: preparation.pages,
        next_offset: (4096 * preparation.pages.dom().len()) as u64,
        next_page,
        actions: Seq::empty(),
    }
}

/// A fork whose pages are about to be copied: what was prepared, with all dirty pages added, and
/// what has to be done.
#[derive(Debug)]
pub struct RamForkPlan {
    preparation: RamForkPreparation,
    actions: Vec<RamAction>,
}

impl RamForkPlan {
    pub closed spec fn preparation(self) -> PreparationView {
        self.preparation@
    }

    pub closed spec fn spec_actions(self) -> Seq<RamAction> {
        self.actions@
    }

    /// What has to be done before the fork is installed.
    pub fn actions(&self) -> (actions: &Vec<RamAction>)
        ensures
            actions@ == self.spec_actions(),
    {
        &self.actions
    }
}

/// The pages of a new branch.
#[derive(Debug)]
pub struct RamForkBranch {
    pages: Vec<RamPage>,
}

impl View for RamForkBranch {
    type V = Seq<RamPage>;

    closed spec fn view(&self) -> Seq<RamPage> {
        self.pages@
    }
}

/// The RAM of a new branch with these pages.
pub open spec fn branch_ram(pages: Seq<RamPage>) -> RamView {
    RamView { pages, dirty: Set::empty(), private: true, sealed: true }
}

impl RamView {
    /// The RAM once what was prepared is in place.
    pub open spec fn installed(self, preparation: PreparationView) -> RamView {
        if preparation.seals || !self.private {
            self
        } else {
            RamView {
                pages: Seq::new(
                    self.pages.len(),
                    |i: int|
                        if preparation.pages.contains_key(i as usize) {
                            preparation.pages[i as usize]
                        } else {
                            self.pages[i]
                        },
                ),
                ..self
            }
        }
    }

    /// The RAM once a fork is complete.
    pub open spec fn forked(self) -> RamView {
        RamView { dirty: Set::empty(), private: true, sealed: true, ..self }
    }

    /// The plan for a fork at which the given pages are dirty, in order.
    pub open spec fn plan(self, preparation: PreparationView, order: Seq<usize>, ids: RamIds) -> (PreparationView, Seq<RamAction>, RamIds) {
        if preparation.seals {
            (preparation, self.copies_in_place(order), ids)
        } else if self.private {
            let grown = ungrown(preparation, ids.next_page).grown(preparation.generation, order, order.len() as int);
            (PreparationView { pages: grown.pages, ..preparation }, grown.actions, RamIds { next_page: grown.next_page, ..ids })
        } else {
            (preparation, Seq::empty(), ids)
        }
    }
}

/// Whether this is what is prepared for a fork, and done for it, where the given pages are dirty
/// while the guest still runs.
pub open spec fn prepares(
    ram: RamView,
    pages: Seq<usize>,
    preparation: PreparationView,
    actions: Seq<RamAction>,
    was: RamIds,
    now: RamIds,
) -> bool {
    &&& preparation.fits(ram)
    &&& exists|order: Seq<usize>|
        {
            &&& #[trigger] lists(order, named_pages(pages))
            &&& forall|k: int| 0 <= k < order.len() ==> #[trigger] order[k] < ram.pages.len()
            &&& if ram.sealed {
                prepared_apart(preparation, actions, order, was, now)
            } else {
                &&& preparation == (PreparationView { generation: ram.pages[0].generation, pages: Map::empty(), seals: true })
                &&& actions == ram.copies_in_place(order)
                &&& now == was
            }
        }
}

/// Whether `plan` ends a prepared fork at which the given pages are dirty, besides those that the
/// host has written to.
pub open spec fn finishes(
    ram: RamView,
    preparation: PreparationView,
    pages: Seq<usize>,
    plan: RamForkPlan,
    was: RamIds,
    now: RamIds,
) -> bool {
    &&& plan.preparation().fits(ram)
    &&& exists|order: Seq<usize>|
        {
            &&& #[trigger] lists(order, ram.dirty + named_pages(pages))
            &&& (plan.preparation(), plan.spec_actions(), now) == ram.plan(preparation, order, was)
        }
}

/// Whether the error names the first page of a list that RAM with `count` pages does not have.
pub open spec fn first_stray(pages: Seq<usize>, count: nat, e: Error) -> bool {
    exists|i: int|
        {
            &&& 0 <= i < pages.len()
            &&& #[trigger] pages[i] >= count
            &&& e == (Error::InvalidDirtyPage { page: pages[i], pages: count as usize })
            &&& forall|j: int| 0 <= j < i ==> #[trigger] pages[j] < count
        }
}

/// Whether the error names the least page of a list that RAM with `count` pages does not have.
pub open spec fn least_stray(pages: Seq<usize>, count: nat, e: Error) -> bool {
    exists|page: usize|
        {
            &&& #[trigger] pages.contains(page)
            &&& page >= count
            &&& forall|other: usize| pages.contains(other) && other < page ==> other < count
            &&& e == (Error::InvalidDirtyPage { page, pages: count as usize })
        }
}

/// Whether the operations map the RAM anew once what was prepared is in place.
pub open spec fn installs(ram: RamView, preparation: PreparationView, actions: Seq<RamAction>) -> bool {
    let pages = ram.installed(preparation).pages;
    if preparation.seals {
        actions == seq![RamAction::DiscardPrivate]
    } else if ram.private {
        exists|changed: Seq<usize>|
            {
                &&& #[trigger] lists(changed, preparation.pages.dom())
                &&& runs_cover(pages, changed, actions, true)
            }
    } else {
        runs_cover(pages, every_page(ram.pages.len() as int), actions, true)
    }
}

fn copy_pages(pages: &Vec<RamPage>) -> (copy: Vec<RamPage>)
    ensures
        copy@ == pages@,
{
    let n: usize = pages.len();
    let mut copy: Vec<RamPage> = Vec::new();
    let mut i: usize = 0;
    while i < n
        invariant
            i <= n,
            n == pages@.len(),
            copy@ == pages@.take(i as int),
        decreases n - i,
    {
        copy.push(pages[i]);
        assert(pages@.take(i + 1) =~= pages@.take(i as int).push(pages@[i as int]));
        i += 1;
    }
    assert(pages@.take(n as int) =~= pages@);
    copy
}

impl KvmGuestRam {
    /// Plans which pages are copied where, now that the guest is paused.
    pub fn finish_prepared_pages(&self, preparation: RamForkPreparation, dirty: &OrdSet<usize>, ids: &mut RamIds) -> (plan: RamForkPlan)
        requires
            self.wf(),
            preparation@.fits(self@),
            forall|p: usize| #[trigger] dirty@.contains(p) ==> p < self@.pages.len(),
            old(ids).next_page + self@.pages.len() <= u64::MAX,
        ensures
            plan.preparation().fits(self@),
            exists|order: Seq<usize>|
                {
                    &&& #[trigger] lists(order, dirty@)
                    &&& (plan.preparation(), plan.spec_actions(), *final(ids)) == self@.plan(preparation@, order, *old(ids))
                },
    {
        let order = in_order(dirty);
        let n: usize = order.len();
        assert forall|k: int| 0 <= k < n implies #[trigger] order@[k] < self@.pages.len() by {
            assert(order@.contains(order@[k]));
        }
        proof {
            lemma_list_len(order@, self@.pages.len());
        }
        let mut actions: Vec<RamAction> = Vec::new();
        if preparation.seals_existing_generation {
            let mut i: usize = 0;
            while i < n
                invariant
                    i <= n,
                    n == order@.len(),
                    forall|k: int| 0 <= k < n ==> #[trigger] order@[k] < self@.pages.len(),
                    actions@ == self@.copies_in_place(order@).take(i as int),
                decreases n - i,
            {
                let page: usize = order[i];
                assert(order@[i as int] < self@.pages.len());
                actions.push(RamAction::CopyPage { page, generation: self.pages[page].generation, offset: self.pages[page].offset });
                assert(actions@ =~= self@.copies_in_place(order@).take(i + 1));
                i += 1;
            }
            assert(actions@ =~= self@.copies_in_place(order@));
            assert(lists(order@, dirty@));
            return RamForkPlan { preparation, actions };
        }
        if !self.private {
            assert(actions@ =~= Seq::<RamAction>::empty());
            assert(lists(order@, dirty@));
            return RamForkPlan { preparation, actions };
        }
        let mut preparation = preparation;
        let ghost was = preparation@;
        let ghost start = ungrown(was, ids.next_page);
        let generation: u64 = preparation.generation;
        let prepared: usize = preparation.pages.len();
        proof {
            lemma_keys_below(was.pages, self@.pages.len());
        }
        let mut next_offset: u64 = prepared as u64 * 4096;
        let mut i: usize = 0;
        while i < n
            invariant
                i <= n,
                n == order@.len(),
                self.wf(),
                forall|k: int| 0 <= k < n ==> #[trigger] order@[k] < self@.pages.len(),
                old(ids).next_page + self@.pages.len() <= u64::MAX,
                start == ungrown(was, old(ids).next_page),
                preparation@.fits(self@),
                !preparation@.seals,
                was.generation == generation,
                preparation@ == (PreparationView { pages: start.grown(generation, order@, i as int).pages, ..was }),
                next_offset == start.grown(generation, order@, i as int).next_offset,
                next_offset == 4096 * preparation@.pages.dom().len(),
                ids.next_page == start.grown(generation, order@, i as int).next_page,
                ids.next_generation == old(ids).next_generation,
                actions@ == start.grown(generation, order@, i as int).actions,
                ids.next_page - old(ids).next_page <= preparation@.pages.dom().len(),
                preparation@.pages.dom().len() <= self@.pages.len(),
            decreases n - i,
        {
            let ghost before = start.grown(generation, order@, i as int);
            let ghost fit = preparation@;
            let page: usize = order[i];
            assert(order@[i as int] < self@.pages.len());
            let mut offset: u64 = next_offset;
            if let Some(held) = preparation.pages.get(&page) {
                offset = held.offset;
            } else {
                proof {
                    lemma_keys_below(fit.pages.insert(page, RamPage { id: 0, generation, offset: 0 }), self@.pages.len());
                    assert(fit.pages.insert(page, RamPage { id: 0, generation, offset: 0 }).dom() =~= fit.pages.dom().insert(page));
                }
                next_offset = next_offset + 4096;
                actions.push(RamAction::GrowGeneration { generation, len: next_offset });
                let id: u64 = ids.next_page;
                ids.next_page = id + 1;
                preparation.pages.insert(page, RamPage { id, generation, offset });
                assert(preparation@.pages.dom() =~= fit.pages.dom().insert(page));
                assert forall|p: usize, q: usize|
                    p != q && preparation@.pages.contains_key(p) && preparation@.pages.contains_key(q) implies (#[trigger] preparation@.pages[p]).offset
                    != (#[trigger] preparation@.pages[q]).offset by {
                    if p != page {
                        assert(fit.pages.contains_key(p));
                    }
                    if q != page {
                        assert(fit.pages.contains_key(q));
                    }
                }
                assert forall|p: usize| #[trigger] preparation@.pages.contains_key(p) implies p < self@.pages.len() && preparation@.pages[p].generation
                    == preparation@.generation && preparation@.pages[p].offset + 4096 <= 4096 * preparation@.pages.dom().len() by {
                    if p != page {
                        assert(fit.pages.contains_key(p));
                    }
                }
            }
            actions.push(RamAction::CopyPage { page, generation, offset });
            proof {
                let next = before.after(generation, page);
                assert(actions@ =~= next.actions);
                assert(preparation@.pages =~= next.pages);
            }
            i += 1;
        }
        assert(lists(order@, dirty@));
        RamForkPlan { preparation, actions }
    }

    /// The same, with the pages that were written to while pages were copied.
    pub fn finish_prepared_branch(&self, preparation: RamForkPreparation, pages_dirtied_during_copy: &[usize], ids: &mut RamIds) -> (r: Result<
        RamForkPlan,
        Error,
    >)
        requires
            self.wf(),
            preparation@.fits(self@),
            old(ids).next_page + self@.pages.len() <= u64::MAX,
        ensures
            match r {
                Ok(plan) => {
                    &&& finishes(self@, preparation@, pages_dirtied_during_copy@, plan, *old(ids), *final(ids))
                    &&& forall|i: int| 0 <= i < pages_dirtied_during_copy@.len() ==> #[trigger] pages_dirtied_during_copy@[i] < self@.pages.len()
                },
                Err(e) => *final(ids) == *old(ids) && first_stray(pages_dirtied_during_copy@, self@.pages.len(), e),
            },
    {
        assert(self.host_dirty@ == self@.dirty);
        let dirty = match self.checked_pages(&self.host_dirty, pages_dirtied_during_copy) {
            Ok(dirty) => dirty,
            Err(error) => {
                return Err(error);
            },
        };
        assert forall|i: int| 0 <= i < pages_dirtied_during_copy@.len() implies #[trigger] pages_dirtied_during_copy@[i] < self@.pages.len() by {
            assert(named_pages(pages_dirtied_during_copy@).contains(pages_dirtied_during_copy@[i]));
            assert(dirty@.contains(pages_dirtied_during_copy@[i]));
        }
        let plan = self.finish_prepared_pages(preparation, &dirty, ids);
        assert(dirty@ == self@.dirty + named_pages(pages_dirtied_during_copy@));
        Ok(plan)
    }

    /// Puts the copied pages in place, and says what has to be mapped from where.
    pub fn install(&mut self, plan: &RamForkPlan) -> (actions: Vec<RamAction>)
        requires
            old(self).wf(),
            plan.preparation().fits(old(self)@),
        ensures
            final(self).wf(),
            final(self)@ == old(self)@.installed(plan.preparation()),
            installs(old(self)@, plan.preparation(), actions@),
    {
        let ghost v = self@;
        let ghost prepared = plan.preparation();
        if plan.preparation.seals_existing_generation {
            let mut actions: Vec<RamAction> = Vec::new();
            actions.push(RamAction::DiscardPrivate);
            assert(actions@ =~= seq![RamAction::DiscardPrivate]);
            return actions;
        }
        if !self.private {
            return self.map_all_pages(true);
        }
        let n: usize = plan.preparation.pages.len();
        let ghost keys = plan.preparation.pages.keys();
        let mut changed: Vec<usize> = Vec::new();
        let mut i: usize = 0;
        while i < n
            invariant
                i <= n,
                n == keys.len(),
                keys == plan.preparation.pages.keys(),
                plan.preparation.pages.listed(),
                prepared == plan.preparation(),
                prepared.fits(v),
                !prepared.seals,
                v.wf(),
                changed@ == keys.take(i as int),
                self@ == (RamView { pages: self@.pages, ..v }),
                self@.pages.len() == v.pages.len(),
                forall|k: int| 0 <= k < v.pages.len() ==> #[trigger] self@.pages[k] == (if among(keys, i as int, k as usize) {
                    prepared.pages[k as usize]
                } else {
                    v.pages[k]
                }),
            decreases n - i,
        {
            proof {
                lemma_among(keys, i as int);
            }
            let page: usize = *plan.preparation.pages.key_at(i);
            assert(prepared.pages.contains_key(page));
            self.pages.set(page, *plan.preparation.pages.value_at(i));
            changed.push(page);
            assert(keys.take(i + 1) =~= keys.take(i as int).push(keys[i as int]));
            i += 1;
        }
        assert(changed@ =~= keys);
        assert(self@.pages =~= v.installed(prepared).pages) by {
            assert forall|k: int| 0 <= k < v.pages.len() implies #[trigger] self@.pages[k] == v.installed(prepared).pages[k] by {
                assert(prepared.pages.contains_key(k as usize) <==> keys.contains(k as usize));
            }
        }
        proof {
            lemma_installed_wf(v, prepared);
            assert(lists(changed@, prepared.pages.dom())) by {
                assert forall|p: usize| #[trigger] changed@.contains(p) <==> prepared.pages.dom().contains(p) by {
                    assert(prepared.pages.contains_key(p) <==> keys.contains(p));
                }
            }
            assert forall|k: int| 0 <= k < changed@.len() implies #[trigger] changed@[k] < self@.pages.len() by {
                assert(changed@.contains(changed@[k]));
                assert(prepared.pages.contains_key(changed@[k]));
            }
        }
        self.map_runs(&changed, true)
    }

    /// The runs in which all pages are mapped.
    pub fn map_all_pages(&self, private: bool) -> (runs: Vec<RamAction>)
        requires
            self.wf(),
        ensures
            runs_cover(self@.pages, every_page(self@.pages.len() as int), runs@, private),
    {
        let n: usize = self.pages.len();
        let mut all: Vec<usize> = Vec::new();
        let mut i: usize = 0;
        while i < n
            invariant
                i <= n,
                n == self@.pages.len(),
                all@ == every_page(i as int),
            decreases n - i,
        {
            all.push(i);
            assert(all@ =~= every_page(i + 1));
            i += 1;
        }
        self.map_runs(&all, private)
    }

    /// Completes a fork once its pages are in place and mapped.
    pub fn commit(&mut self) -> (branch: RamForkBranch)
        requires
            old(self).wf(),
        ensures
            final(self).wf(),
            final(self)@ == old(self)@.forked(),
            branch@ == old(self)@.pages,
    {
        self.private = true;
        self.sealed = true;
        self.host_dirty.clear();
        RamForkBranch { pages: copy_pages(&self.pages) }
    }

    /// Counts the pages that the guests have, those that two or more of them have, and the
    /// generation files that hold them.
    pub fn page_accounting(branches: &Vec<&KvmGuestRam>) -> (accounting: RamAccounting)
        ensures
            ({
                let ids = branches@.map_values(|ram: &KvmGuestRam| page_ids(ram@.pages));
                let generations = branches@.map_values(|ram: &KvmGuestRam| generation_ids(ram@.pages));
                &&& accounting.resident_pages == held(ids).len()
                &&& accounting.shared_pages == held_twice(ids).len()
                &&& accounting.backing_files == held(generations).len()
            }),
    {
        let ghost ids = branches@.map_values(|ram: &KvmGuestRam| page_ids(ram@.pages));
        let ghost generations = branches@.map_values(|ram: &KvmGuestRam| generation_ids(ram@.pages));
        let mut census = Census::new();
        let mut files = Census::new();
        let n: usize = branches.len();
        let mut i: usize = 0;
        assert(ids.take(0) =~= Seq::<Set<u64>>::empty());
        assert(generations.take(0) =~= Seq::<Set<u64>>::empty());
        while i < n
            invariant
                i <= n,
                n == branches@.len(),
                ids == branches@.map_values(|ram: &KvmGuestRam| page_ids(ram@.pages)),
                generations == branches@.map_values(|ram: &KvmGuestRam| generation_ids(ram@.pages)),
                census.wf(),
                files.wf(),
                census.sets() == ids.take(i as int),
                files.sets() == generations.take(i as int),
            decreases n - i,
        {
            let pages = &branches[i].pages;
            let m: usize = pages.len();
            let mut seen: OrdSet<u64> = OrdSet::new();
            let mut kept: OrdSet<u64> = OrdSet::new();
            let mut j: usize = 0;
            while j < m
                invariant
                    j <= m,
                    m == pages@.len(),
                    seen@ == page_ids(pages@.take(j as int)),
                    kept@ == generation_ids(pages@.take(j as int)),
                decreases m - j,
            {
                let ghost earlier = pages@.take(j as int);
                let ghost later = pages@.take(j + 1);
                seen.insert(pages[j].id);
                kept.insert(pages[j].generation);
                proof {
                    assert(later =~= earlier.push(pages@[j as int]));
                    lemma_ids_push(earlier, pages@[j as int]);
                }
                j += 1;
            }
            assert(pages@.take(m as int) =~= pages@);
            census.count_set(&seen);
            files.count_set(&kept);
            assert(ids.take(i + 1) =~= ids.take(i as int).push(seen@));
            assert(generations.take(i + 1) =~= generations.take(i as int).push(kept@));
            i += 1;
        }
        assert(ids.take(n as int) =~= ids);
        assert(generations.take(n as int) =~= generations);
        RamAccounting { resident_pages: census.resident(), shared_pages: census.shared(), backing_files: files.resident() }
    }
}

impl KvmGuestRam {
    /// RAM over pages that are kept elsewhere, those of a fork or saved ones, and what has to be
    /// mapped for it.
    pub fn from_pages(pages: Vec<RamPage>) -> (r: (KvmGuestRam, Vec<RamAction>))
        requires
            branch_ram(pages@).wf(),
        ensures
            r.0.wf(),
            r.0@ == branch_ram(pages@),
            runs_cover(pages@, every_page(pages@.len() as int), r.1@, true),
    {
        let ram = KvmGuestRam { pages, host_dirty: OrdSet::new(), private: true, sealed: true };
        let runs = ram.map_all_pages(true);
        (ram, runs)
    }

    /// Where each page is kept.
    pub fn pages(&self) -> (pages: &Vec<RamPage>)
        ensures
            pages@ == self@.pages,
    {
        &self.pages
    }
}

impl RamForkBranch {
    /// The RAM of the new branch, and what has to be mapped for it.
    pub fn materialize(self) -> (r: (KvmGuestRam, Vec<RamAction>))
        requires
            branch_ram(self@).wf(),
        ensures
            r.0.wf(),
            r.0@ == branch_ram(self@),
            runs_cover(self@, every_page(self@.len() as int), r.1@, true),
    {
        KvmGuestRam::from_pages(self.pages)
    }
}

/// Counts of the pages behind some guests.
#[derive(Clone, Copy, Debug, Eq, PartialEq, Structural)]
pub struct RamAccounting {
    pub resident_pages: usize,
    pub shared_pages: usize,
    pub backing_files: usize,
}

/// The identities of the pages.
pub open spec fn page_ids(pages: Seq<RamPage>) -> Set<u64> {
    Set::new(|id: u64| exists|i: int| 0 <= i < pages.len() && (#[trigger] pages[i]).id == id)
}

/// The generations that the pages are in.
pub open spec fn generation_ids(pages: Seq<RamPage>) -> Set<u64> {
    Set::new(|id: u64| exists|i: int| 0 <= i < pages.len() && (#[trigger] pages[i]).generation == id)
}

proof fn lemma_ids_push(pages: Seq<RamPage>, page: RamPage)
    ensures
        page_ids(pages.push(page)) == page_ids(pages).insert(page.id),
        generation_ids(pages.push(page)) == generation_ids(pages).insert(page.generation),
        page_ids(Seq::<RamPage>::empty()) == Set::<u64>::empty(),
{
    let more = pages.push(page);
    assert forall|id: u64| page_ids(more).contains(id) <==> page_ids(pages).insert(page.id).contains(id) by {
        if page_ids(pages).contains(id) {
            let i = choose|i: int| 0 <= i < pages.len() && (#[trigger] pages[i]).id == id;
            assert(more[i].id == id);
        }
        if id == page.id {
            assert(more[pages.len() as int].id == id);
        }
        if page_ids(more).contains(id) {
            let i = choose|i: int| 0 <= i < more.len() && (#[trigger] more[i]).id == id;
            if i < pages.len() {
                assert(pages[i].id == id);
            }
        }
    }
    assert forall|id: u64| generation_ids(more).contains(id) <==> generation_ids(pages).insert(page.generation).contains(id) by {
        if generation_ids(pages).contains(id) {
            let i = choose|i: int| 0 <= i < pages.len() && (#[trigger] pages[i]).generation == id;
            assert(more[i].generation == id);
        }
        if id == page.generation {
            assert(more[pages.len() as int].generation == id);
        }
        if generation_ids(more).contains(id) {
            let i = choose|i: int| 0 <= i < more.len() && (#[trigger] more[i]).generation == id;
            if i < pages.len() {
                assert(pages[i].generation == id);
            }
        }
    }
    assert(page_ids(more) =~= page_ids(pages).insert(page.id));
    assert(generation_ids(more) =~= generation_ids(pages).insert(page.generation));
    assert(page_ids(Seq::<RamPage>::empty()) =~= Set::<u64>::empty());
}

/// A map whose keys are numbers below `bound` has no more than `bound` entries.
pub proof fn lemma_keys_below(pages: Map<usize, RamPage>, bound: nat)
    requires
        pages.dom().finite(),
        forall|p: usize| #[trigger] pages.contains_key(p) ==> p < bound,
    ensures
        pages.dom().len() <= bound,
{
    let below = vstd::set_lib::set_int_range(0, bound as int);
    let keys = pages.dom().map(|p: usize| p as int);
    vstd::set_lib::lemma_int_range(0, bound as int);
    assert(keys.subset_of(below)) by {
        assert forall|i: int| keys.contains(i) implies below.contains(i) by {
            let p = choose|p: usize| pages.dom().contains(p) && p as int == i;
            assert(pages.contains_key(p));
        }
    }
    vstd::set_lib::lemma_len_subset(keys, below);
    vstd::set_lib::lemma_map_size(pages.dom(), keys, |p: usize| p as int);
}

/// Putting prepared pages in place keeps RAM well formed.
pub proof fn lemma_installed_wf(v: RamView, preparation: PreparationView)
    requires
        v.wf(),
        preparation.fits(v),
        !preparation.seals,
    ensures
        v.installed(preparation).wf(),
{
    let w = v.installed(preparation);
    lemma_keys_below(preparation.pages, v.pages.len());
    assert forall|i: int| 0 <= i < w.pages.len() implies (#[trigger] w.pages[i]).offset + 4096 <= u64::MAX by {
        if preparation.pages.contains_key(i as usize) {
            assert(preparation.pages[i as usize].offset + 4096 <= 4096 * preparation.pages.dom().len());
        } else {
            assert(v.pages[i].offset + 4096 <= u64::MAX);
        }
    }
    assert forall|i: int, j: int| 0 <= i < j < w.pages.len() implies place(#[trigger] w.pages[i]) != place(#[trigger] w.pages[j]) by {
        let a = preparation.pages.contains_key(i as usize);
        let b = preparation.pages.contains_key(j as usize);
        assert(v.pages[i].generation != preparation.generation || v.pages[i].generation == v.pages[i].generation);
        if a && b {
            assert(preparation.pages[i as usize].offset != preparation.pages[j as usize].offset);
        } else if a && v.private {
            assert(preparation.pages[i as usize].generation == preparation.generation);
            assert(v.pages[j].generation != preparation.generation);
        } else if b && v.private {
            assert(preparation.pages[j as usize].generation == preparation.generation);
            assert(v.pages[i].generation != preparation.generation);
        } else {
            assert(place(v.pages[i]) != place(v.pages[j]));
        }
    }
}

/// The preparation of a fork for which nothing is copied before the pause.
pub open spec fn unprepared(ram: RamView, ids: RamIds) -> PreparationView {
    if ram.sealed {
        PreparationView { generation: ids.next_generation, pages: Map::empty(), seals: false }
    } else {
        PreparationView { generation: ram.pages[0].generation, pages: Map::empty(), seals: true }
    }
}

/// What is done for such a preparation.
pub open spec fn unprepared_actions(ram: RamView, ids: RamIds) -> Seq<RamAction> {
    if ram.sealed {
        seq![RamAction::CreateGeneration { generation: ids.next_generation, len: 0 }]
    } else {
        Seq::empty()
    }
}

/// The identities left after such a preparation.
pub open spec fn unprepared_ids(ram: RamView, ids: RamIds) -> RamIds {
    if ram.sealed {
        RamIds { next_generation: (ids.next_generation + 1) as u64, ..ids }
    } else {
        ids
    }
}

/// Whether `plan` is that of a fork at once, with the given pages dirty.
pub open spec fn forks_at_once(ram: RamView, plan: RamForkPlan, dirty: Set<usize>, was: RamIds, now: RamIds) -> bool {
    &&& plan.preparation().fits(ram)
    &&& exists|order: Seq<usize>|
        {
            let planned = ram.plan(unprepared(ram, was), order, unprepared_ids(ram, was));
            &&& #[trigger] lists(order, dirty)
            &&& plan.preparation() == planned.0
            &&& plan.spec_actions() == unprepared_actions(ram, was) + planned.1
            &&& now == planned.2
        }
}

impl KvmGuestRam {
    fn fork_pages(&self, dirty: &OrdSet<usize>, ids: &mut RamIds) -> (plan: RamForkPlan)
        requires
            self.wf(),
            self@.drawn_from(*old(ids)),
            forall|p: usize| #[trigger] dirty@.contains(p) ==> p < self@.pages.len(),
            old(ids).next_generation < u64::MAX,
            old(ids).next_page + self@.pages.len() <= u64::MAX,
        ensures
            forks_at_once(self@, plan, dirty@, *old(ids), *final(ids)),
    {
        let ghost was = *ids;
        let mut actions: Vec<RamAction> = Vec::new();
        let preparation = if self.sealed {
            let generation: u64 = ids.next_generation;
            ids.next_generation = generation + 1;
            actions.push(RamAction::CreateGeneration { generation, len: 0 });
            RamForkPreparation { generation, pages: OrdMap::new(), seals_existing_generation: false }
        } else {
            RamForkPreparation { generation: self.pages[0].generation, pages: OrdMap::new(), seals_existing_generation: true }
        };
        assert(preparation@ =~= unprepared(self@, was));
        assert(actions@ =~= unprepared_actions(self@, was));
        let plan = self.finish_prepared_pages(preparation, dirty, ids);
        let ghost order = choose|order: Seq<usize>|
            {
                &&& #[trigger] lists(order, dirty@)
                &&& (plan.preparation(), plan.spec_actions(), *ids) == self@.plan(preparation@, order, unprepared_ids(self@, was))
            };
        let mut rest = plan.actions;
        actions.append(&mut rest);
        assert(actions@ =~= unprepared_actions(self@, was) + self@.plan(preparation@, order, unprepared_ids(self@, was)).1);
        let whole = RamForkPlan { preparation: plan.preparation, actions };
        assert(lists(order, dirty@));
        whole
    }

    /// Plans a fork once the guest is paused, with the hypervisor's dirty log.
    pub fn fork(&self, log: &Vec<u64>, ids: &mut RamIds) -> (plan: RamForkPlan)
        requires
            self.wf(),
            self@.drawn_from(*old(ids)),
            old(ids).next_generation < u64::MAX,
            old(ids).next_page + self@.pages.len() <= u64::MAX,
        ensures
            forks_at_once(self@, plan, self@.dirty_with(log@), *old(ids), *final(ids)),
    {
        let dirty = self.dirty_pages(log);
        self.fork_pages(&dirty, ids)
    }

    /// Plans a fork once the guest is paused, with the numbers of its dirty pages.
    pub fn fork_dirty_pages(&self, pages: &[usize], ids: &mut RamIds) -> (r: Result<RamForkPlan, Error>)
        requires
            self.wf(),
            self@.drawn_from(*old(ids)),
            old(ids).next_generation < u64::MAX,
            old(ids).next_page + self@.pages.len() <= u64::MAX,
        ensures
            match r {
                Ok(plan) => {
                    &&& forks_at_once(self@, plan, self@.dirty + named_pages(pages@), *old(ids), *final(ids))
                    &&& forall|i: int| 0 <= i < pages@.len() ==> #[trigger] pages@[i] < self@.pages.len()
                },
                Err(e) => *final(ids) == *old(ids) && first_stray(pages@, self@.pages.len(), e),
            },
    {
        assert(self.host_dirty@ == self@.dirty);
        let dirty = match self.checked_pages(&self.host_dirty, pages) {
            Ok(dirty) => dirty,
            Err(error) => {
                return Err(error);
            },
        };
        assert forall|i: int| 0 <= i < pages@.len() implies #[trigger] pages@[i] < self@.pages.len() by {
            assert(named_pages(pages@).contains(pages@[i]));
            assert(dirty@.contains(pages@[i]));
        }
        Ok(self.fork_pages(&dirty, ids))
    }
}

impl KvmGuestRam {
    /// Reads guest memory, of which `memory` holds the bytes.
    pub fn read(&self, memory: &[u8], offset: usize, bytes: &mut [u8]) -> (r: Result<(), Error>)
        requires
            self.wf(),
            memory@.len() == self@.len(),
        ensures
            final(bytes)@.len() == old(bytes)@.len(),
            if offset + old(bytes)@.len() > self@.len() {
                &&& r == Err::<(), Error>(Error::RamRange { offset, len: old(bytes)@.len() as usize })
                &&& final(bytes)@ == old(bytes)@
            } else {
                &&& r == Ok::<(), Error>(())
                &&& final(bytes)@ == bytes_at(memory@, offset as int, old(bytes)@.len())
            },
    {
        let len: usize = bytes.len();
        let end: usize = self.checked_range(offset, len)?;
        lay_over_slice(bytes, 0, slice_subrange(memory, offset, end));
        assert(bytes@ =~= memory@.subrange(offset as int, end as int));
        Ok(())
    }

    /// Writes guest memory, of which `memory` holds the bytes, and notes the pages reached.
    pub fn write(&mut self, memory: &mut [u8], offset: usize, bytes: &[u8]) -> (r: Result<(), Error>)
        requires
            old(self).wf(),
            old(memory)@.len() == old(self)@.len(),
        ensures
            final(self).wf(),
            if offset + bytes@.len() > old(self)@.len() {
                &&& r == Err::<(), Error>(Error::RamRange { offset, len: bytes@.len() as usize })
                &&& final(self)@ == old(self)@
                &&& final(memory)@ == old(memory)@
            } else {
                &&& r == Ok::<(), Error>(())
                &&& final(memory)@ == laid_over(old(memory)@, offset as int, bytes@)
                &&& final(self)@ == old(self)@.written(offset as int, bytes@.len() as int)
            },
    {
        match self.record_write(offset, bytes.len()) {
            Ok(()) => {},
            Err(error) => {
                return Err(error);
            },
        }
        lay_over_slice(memory, offset, bytes);
        Ok(())
    }
}

} // verus!
