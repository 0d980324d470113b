//! Copy-on-write page branches over shared immutable generations.

use std::sync::Arc;

use vstd::prelude::*;
#[allow(unused_imports)]
use vstd::string::StringSliceAdditionalSpecFns;

use crate::bytes::{copy_slice, lay_over, zero_bytes};
#[allow(unused_imports)]
use crate::bytes::zeros;
use crate::ordered::{Key, Name, OrdMap, OrdSet};

verus! {

pub const PAGE_SIZE: usize = 4096;

/// Why a page operation did not complete.
#[derive(Clone, Copy, PartialEq, Eq, Structural, Debug)]
pub enum PageError {
    /// The byte range does not fit the address space.
    RangeOverflow,
    /// No page identity is left to give out.
    PageIdOverflow,
}

/// One immutable physical page.
#[derive(Debug)]
pub struct Page {
    id: u64,
    bytes: Vec<u8>,
}

/// What a page is: its identity and its contents.
#[verifier::ext_equal]
pub struct PageView {
    pub id: u64,
    pub bytes: Seq<u8>,
}

impl View for Page {
    type V = PageView;

    closed spec fn view(&self) -> PageView {
        PageView { id: self.id, bytes: self.bytes@ }
    }
}

/// A page of a named space: the name's bytes and the page number.
pub type PageKey = (Seq<u8>, u64);

/// Pages under their keys.
pub type Pages = Map<PageKey, PageView>;

type Held = OrdMap<(Name, u64), Arc<Page>>;

/// The given pages as values.
pub open spec fn viewed(pages: Map<PageKey, Arc<Page>>) -> Pages {
    pages.map_values(|page: Arc<Page>| page@)
}

/// The identities of the given pages.
pub open spec fn page_ids(pages: Pages) -> Set<u64> {
    Set::new(|id: u64| exists|k: PageKey| pages.contains_key(k) && (#[trigger] pages[k]).id == id)
}

/// Whether each page holds exactly one page of bytes.
pub open spec fn full_pages(pages: Pages) -> bool {
    forall|k: PageKey| #[trigger] pages.contains_key(k) ==> pages[k].bytes.len() == PAGE_SIZE
}

/// The contents under `key`, which are zero where no page stands.
pub open spec fn page_bytes(pages: Pages, key: PageKey) -> Seq<u8> {
    if pages.contains_key(key) {
        pages[key].bytes
    } else {
        zeros(PAGE_SIZE as nat)
    }
}

/// The byte at `address` of the named space.
pub open spec fn byte_at(pages: Pages, name: Seq<u8>, address: int) -> u8 {
    page_bytes(pages, (name, (address / 4096) as u64))[address % 4096]
}

/// The contents of page `number` once `bytes` are written at `offset`.
pub open spec fn overwritten(page: Seq<u8>, number: int, offset: int, bytes: Seq<u8>) -> Seq<u8> {
    Seq::new(
        PAGE_SIZE as nat,
        |i: int|
            if offset <= number * 4096 + i < offset + bytes.len() {
                bytes[number * 4096 + i - offset]
            } else {
                page[i]
            },
    )
}

/// How many pages a write of `len` bytes at `offset` touches.
pub open spec fn touched_pages(offset: int, len: int) -> int {
    if len == 0 {
        0
    } else {
        (offset + len - 1) / 4096 - offset / 4096 + 1
    }
}

/// Whether `key` is among the first `done` pages that a write at `offset` touches.
pub open spec fn touched(key: PageKey, name: Seq<u8>, offset: int, done: int) -> bool {
    key.0 == name && offset / 4096 <= key.1 < offset / 4096 + done
}

/// `own` after the first `done` pages of a write: each page touched is a new one, numbered
/// from `next` on, with the contents that were visible overwritten.
pub open spec fn written(own: Pages, visible: Pages, name: Seq<u8>, offset: int, bytes: Seq<u8>, next: int, done: int) -> Pages {
    Map::new(
        |k: PageKey| own.contains_key(k) || touched(k, name, offset, done),
        |k: PageKey|
            if touched(k, name, offset, done) {
                PageView {
                    id: (next + k.1 - offset / 4096) as u64,
                    bytes: overwritten(page_bytes(visible, k), k.1 as int, offset, bytes),
                }
            } else {
                own[k]
            },
    )
}

/// Pages that no longer change, over those of an earlier generation.
#[derive(Debug)]
pub struct PageGeneration {
    parent: Option<Arc<PageGeneration>>,
    pages: Held,
}

impl PageGeneration {
    pub closed spec fn visible(self) -> Pages
        decreases self,
    {
        match self.parent {
            Some(parent) => parent.visible().union_prefer_right(viewed(self.pages@)),
            None => viewed(self.pages@),
        }
    }

    pub closed spec fn retained(self) -> Set<u64>
        decreases self,
    {
        match self.parent {
            Some(parent) => parent.retained() + page_ids(viewed(self.pages@)),
            None => page_ids(viewed(self.pages@)),
        }
    }

    /// A generation without pages.
    pub fn empty() -> (g: Arc<Self>)
        ensures
            g.visible() == Map::<PageKey, PageView>::empty(),
            g.retained() == Set::<u64>::empty(),
    {
        let g = Arc::new(PageGeneration { parent: None, pages: OrdMap::new() });
        assert(g.visible() =~= Map::<PageKey, PageView>::empty());
        assert(g.retained() =~= Set::<u64>::empty());
        g
    }

    /// The page under `key` in this generation or the nearest earlier one that has it.
    pub fn page(&self, key: &(Name, u64)) -> (r: Option<&Arc<Page>>)
        ensures
            match r {
                Some(page) => self.visible().contains_key(key@) && page@ == self.visible()[key@],
                None => !self.visible().contains_key(key@),
            },
        decreases self,
    {
        match self.pages.get(key) {
            Some(page) => Some(page),
            None => match &self.parent {
                Some(parent) => parent.page(key),
                None => None,
            },
        }
    }
}

/// The isolated pages of one owner: its own writes over a shared generation.
#[derive(Debug)]
pub struct PageBranch {
    base: Arc<PageGeneration>,
    writes: Held,
}

impl PageBranch {
    /// The pages written since the branch was last forked.
    pub closed spec fn own(self) -> Pages {
        viewed(self.writes@)
    }

    /// The pages of the generation below the writes.
    pub closed spec fn shared(self) -> Pages {
        self.base.visible()
    }

    /// The identities of all pages that the generation keeps alive.
    pub closed spec fn shared_ids(self) -> Set<u64> {
        self.base.retained()
    }

    /// The pages that the branch sees.
    pub open spec fn pages(self) -> Pages {
        self.shared().union_prefer_right(self.own())
    }

    /// The identities of all pages that the branch keeps alive.
    pub open spec fn retained(self) -> Set<u64> {
        self.shared_ids() + page_ids(self.own())
    }

    pub open spec fn wf(self) -> bool {
        full_pages(self.pages())
    }

    pub fn empty() -> (b: Self)
        ensures
            b.own() == Map::<PageKey, PageView>::empty(),
            b.shared() == Map::<PageKey, PageView>::empty(),
            b.shared_ids() == Set::<u64>::empty(),
            b.wf(),
    {
        let b = PageBranch { base: PageGeneration::empty(), writes: OrdMap::new() };
        assert(b.own() =~= Map::<PageKey, PageView>::empty());
        b
    }

    /// Seals the writes into the generation, which the two branches then share.
    pub fn fork(&mut self) -> (child: Self)
        requires
            old(self).wf(),
        ensures
            final(self).wf(),
            final(self).shared() == old(self).pages(),
            final(self).shared_ids() == old(self).retained(),
            final(self).own() == Map::<PageKey, PageView>::empty(),
            child.wf(),
            child.shared() == old(self).pages(),
            child.shared_ids() == old(self).retained(),
            child.own() == Map::<PageKey, PageView>::empty(),
    {
        let ghost before = *self;
        if !self.writes.is_empty() {
            let pages = self.writes.take();
            let parent = Arc::clone(&self.base);
            self.base = Arc::new(PageGeneration { parent: Some(parent), pages });
        } else {
            assert(before.pages() =~= before.shared());
            assert(before.retained() =~= before.shared_ids());
        }
        assert(self.own() =~= Map::<PageKey, PageView>::empty());
        assert(self.pages() =~= before.pages());
        let child = PageBranch { base: Arc::clone(&self.base), writes: OrdMap::new() };
        assert(child.own() =~= Map::<PageKey, PageView>::empty());
        child
    }

    /// The page that the branch sees under `key`.
    pub fn page(&self, key: &(Name, u64)) -> (r: Option<&Arc<Page>>)
        ensures
            match r {
                Some(page) => self.pages().contains_key(key@) && page@ == self.pages()[key@],
                None => !self.pages().contains_key(key@),
            },
    {
        match self.writes.get(key) {
            Some(page) => Some(page),
            None => self.base.page(key),
        }
    }

    /// Writes `bytes` at `offset` of the named space. Every page touched is replaced by a new
    /// one, which takes its identity from `next_page`.
    pub fn write(&mut self, next_page: &mut u64, name: &str, offset: u64, bytes: &[u8]) -> (r: Result<(), PageError>)
        requires
            old(self).wf(),
        ensures
            final(self).wf(),
            final(self).shared() == old(self).shared(),
            final(self).shared_ids() == old(self).shared_ids(),
            r == write_result(offset as int, bytes@.len() as int, *old(next_page) as int),
            *final(next_page) == *old(next_page) + pages_written(offset as int, bytes@.len() as int, *old(next_page) as int),
            final(self).own() == written(
                old(self).own(),
                old(self).pages(),
                name.spec_bytes(),
                offset as int,
                bytes@,
                *old(next_page) as int,
                pages_written(offset as int, bytes@.len() as int, *old(next_page) as int),
            ),
    {
        let ghost before = *self;
        let ghost next = *next_page as int;
        let ghost path = name.spec_bytes();
        let ghost first = offset as int / 4096;
        let length: usize = bytes.len();
        let end: u64 = match offset.checked_add(length as u64) {
            Some(end) => end,
            None => {
                assert(self.own() =~= written(before.own(), before.pages(), path, offset as int, bytes@, next, 0));
                return Err(PageError::RangeOverflow);
            },
        };
        let mut cursor: u64 = offset;
        let ghost mut done: int = 0;
        assert(self.own() =~= written(before.own(), before.pages(), path, offset as int, bytes@, next, 0));
        while cursor < end
            invariant
                before == *old(self),
                next == *old(next_page),
                length == bytes@.len(),
                end == offset + length,
                offset <= cursor <= end,
                first == offset as int / 4096,
                path == name.spec_bytes(),
                next + done == *next_page,
                0 <= done <= touched_pages(offset as int, length as int),
                cursor < end ==> cursor as int / 4096 == first + done,
                cursor < end && done > 0 ==> cursor as int % 4096 == 0,
                done == 0 ==> cursor == offset,
                cursor == end ==> done == touched_pages(offset as int, length as int),
                before.wf(),
                self.wf(),
                self.base == before.base,
                self.own() == written(before.own(), before.pages(), path, offset as int, bytes@, next, done),
            decreases end - cursor,
        {
            let page_number: u64 = cursor / 4096;
            let page_offset: usize = (cursor % 4096) as usize;
            let room: usize = PAGE_SIZE - page_offset;
            let left: u64 = end - cursor;
            let count: usize = if left < room as u64 {
                left as usize
            } else {
                room
            };
            let key: (Name, u64) = (Name::of(name), page_number);
            let ghost kv: PageKey = (path, page_number);
            assert(key@ == kv);
            assert(!touched(kv, path, offset as int, done));
            assert(self.pages().contains_key(kv) <==> before.pages().contains_key(kv));
            let mut contents: Vec<u8> = match self.page(&key) {
                Some(page) => copy_slice(page.bytes.as_slice()),
                None => zero_bytes(PAGE_SIZE),
            };
            assert(contents@ == page_bytes(before.pages(), kv));
            let ghost was = contents@;
            let source_offset: usize = (cursor - offset) as usize;
            lay_over(&mut contents, page_offset, bytes, source_offset, count);
            assert(contents@ =~= overwritten(was, page_number as int, offset as int, bytes@));
            let page = Arc::new(Page { id: *next_page, bytes: contents });
            match next_page.checked_add(1) {
                Some(following) => {
                    *next_page = following;
                },
                None => {
                    return Err(PageError::PageIdOverflow);
                },
            }
            let ghost earlier = *self;
            self.writes.insert(key, page);
            assert(self.own() =~= earlier.own().insert(kv, page@));
            assert(self.pages() =~= earlier.pages().insert(kv, page@));
            assert(self.own() =~= written(before.own(), before.pages(), path, offset as int, bytes@, next, done + 1));
            proof {
                done = done + 1;
            }
            cursor = cursor + count as u64;
        }
        Ok(())
    }

    /// The `len` bytes at `offset` of the named space.
    pub fn read(&self, name: &str, offset: u64, len: usize) -> (r: Result<Vec<u8>, PageError>)
        requires
            self.wf(),
        ensures
            match r {
                Ok(bytes) => {
                    &&& offset + len <= u64::MAX
                    &&& bytes@ == Seq::new(len as nat, |i: int| byte_at(self.pages(), name.spec_bytes(), offset + i))
                },
                Err(error) => error == PageError::RangeOverflow && offset + len > u64::MAX,
            },
    {
        let ghost path = name.spec_bytes();
        let end: u64 = match offset.checked_add(len as u64) {
            Some(end) => end,
            None => {
                return Err(PageError::RangeOverflow);
            },
        };
        let mut result: Vec<u8> = zero_bytes(len);
        let mut cursor: u64 = offset;
        while cursor < end
            invariant
                self.wf(),
                end == offset + len,
                offset <= cursor <= end,
                path == name.spec_bytes(),
                result@.len() == len,
                forall|i: int| 0 <= i < cursor - offset ==> #[trigger] result@[i] == byte_at(self.pages(), path, offset + i),
                forall|i: int| cursor - offset <= i < len ==> #[trigger] result@[i] == 0,
            decreases end - cursor,
        {
            let page_number: u64 = cursor / 4096;
            let page_offset: usize = (cursor % 4096) as usize;
            let room: usize = PAGE_SIZE - page_offset;
            let left: u64 = end - cursor;
            let count: usize = if left < room as u64 {
                left as usize
            } else {
                room
            };
            let key: (Name, u64) = (Name::of(name), page_number);
            let ghost kv: PageKey = (path, page_number);
            assert(key@ == kv);
            let ghost earlier = result@;
            let target_offset: usize = (cursor - offset) as usize;
            if let Some(page) = self.page(&key) {
                lay_over(&mut result, target_offset, page.bytes.as_slice(), page_offset, count);
            }
            assert forall|i: int| 0 <= i < cursor + count - offset implies #[trigger] result@[i] == byte_at(self.pages(), path, offset + i) by {
                if i < cursor - offset {
                    assert(earlier[i] == byte_at(self.pages(), path, offset + i));
                } else {
                    assert((offset + i) / 4096 == page_number);
                    assert((offset + i) % 4096 == page_offset + (offset + i - cursor));
                    assert(earlier[i] == 0);
                }
            }
            cursor = cursor + count as u64;
        }
        assert(result@ =~= Seq::new(len as nat, |i: int| byte_at(self.pages(), path, offset + i)));
        Ok(result)
    }

    /// All pages that the branch sees.
    pub fn visible_pages(&self) -> (visible: OrdMap<(Name, u64), Arc<Page>>)
        ensures
            viewed(visible@) == self.pages(),
    {
        let mut visible: Held = OrdMap::new();
        add_missing(&mut visible, &self.writes);
        assert(viewed(visible@) =~= self.own());
        let mut generation: Option<&PageGeneration> = Some(&*self.base);
        while generation.is_some()
            invariant
                self.pages() == below(generation).union_prefer_right(viewed(visible@)),
            decreases generation,
        {
            if let Some(current) = generation {
                let ghost earlier = visible@;
                add_missing(&mut visible, &current.pages);
                generation = match &current.parent {
                    Some(parent) => Some(&**parent),
                    None => None,
                };
                assert(self.pages() =~= below(generation).union_prefer_right(viewed(visible@)));
            }
        }
        assert(viewed(visible@) =~= self.pages());
        visible
    }

    /// Adds the identities of all pages that the branch keeps alive.
    pub fn add_retained_page_ids(&self, retained: &mut OrdSet<u64>)
        ensures
            final(retained)@ == old(retained)@ + self.retained(),
    {
        let ghost before = retained@;
        add_ids(retained, &self.writes);
        let mut generation: Option<&PageGeneration> = Some(&*self.base);
        while generation.is_some()
            invariant
                before + self.retained() == retained@ + ids_below(generation),
            decreases generation,
        {
            if let Some(current) = generation {
                let ghost earlier = retained@;
                add_ids(retained, &current.pages);
                generation = match &current.parent {
                    Some(parent) => Some(&**parent),
                    None => None,
                };
                assert(before + self.retained() =~= retained@ + ids_below(generation));
            }
        }
        assert(retained@ =~= before + self.retained());
    }

    /// The identities of the pages that the branch sees.
    pub fn visible_ids(&self) -> (ids: OrdSet<u64>)
        ensures
            ids@ == page_ids(self.pages()),
    {
        let visible = self.visible_pages();
        let mut ids: OrdSet<u64> = OrdSet::new();
        add_ids(&mut ids, &visible);
        assert(ids@ =~= page_ids(self.pages()));
        ids
    }
}

spec fn below(generation: Option<&PageGeneration>) -> Pages {
    match generation {
        Some(generation) => generation.visible(),
        None => Map::empty(),
    }
}

spec fn ids_below(generation: Option<&PageGeneration>) -> Set<u64> {
    match generation {
        Some(generation) => generation.retained(),
        None => Set::empty(),
    }
}

/// How many pages a write replaces before it ends.
pub open spec fn pages_written(offset: int, len: int, next: int) -> int {
    if offset + len > u64::MAX {
        0
    } else if touched_pages(offset, len) <= u64::MAX - next {
        touched_pages(offset, len)
    } else {
        u64::MAX - next
    }
}

/// How a write ends.
pub open spec fn write_result(offset: int, len: int, next: int) -> Result<(), PageError> {
    if offset + len > u64::MAX {
        Err(PageError::RangeOverflow)
    } else if touched_pages(offset, len) <= u64::MAX - next {
        Ok(())
    } else {
        Err(PageError::PageIdOverflow)
    }
}

/// Puts every page of `from` into `into`, except under keys that stand there already.
fn add_missing(into: &mut Held, from: &Held)
    ensures
        final(into)@ == from@.union_prefer_right(old(into)@),
{
    let ghost before = into@;
    let n: usize = from.len();
    let mut i: usize = 0;
    while i < n
        invariant
            i <= n,
            n == from.keys().len(),
            from.listed(),
            forall|k: PageKey| #[trigger] into@.contains_key(k) <==> before.contains_key(k) || exists|j: int| 0 <= j < i && from.keys()[j] == k,
            forall|k: PageKey| #[trigger] into@.contains_key(k) ==> into@[k] == (if before.contains_key(k) { before[k] } else { from@[k] }),
        decreases n - i,
    {
        let ghost earlier = into@;
        let ghost key = from.keys()[i as int];
        if !into.contains_key(from.key_at(i)) {
            into.insert(from.key_at(i).duplicate(), Arc::clone(from.value_at(i)));
        }
        assert forall|k: PageKey| #[trigger] into@.contains_key(k) <==> before.contains_key(k) || exists|j: int| 0 <= j < i + 1 && from.keys()[j] == k by {
            assert(into@.contains_key(k) <==> earlier.contains_key(k) || k == key);
            if k == key {
                assert(from.keys()[i as int] == k);
            } else if exists|j: int| 0 <= j < i && from.keys()[j] == k {
                let j = choose|j: int| 0 <= j < i && from.keys()[j] == k;
                assert(0 <= j < i + 1 && from.keys()[j] == k);
            }
        }
        i += 1;
    }
    assert forall|k: PageKey| #[trigger] into@.contains_key(k) <==> from@.contains_key(k) || before.contains_key(k) by {
        assert(from@.contains_key(k) <==> from.keys().contains(k));
    }
    assert(into@ =~= from@.union_prefer_right(before));
}

/// Adds the identities of the given pages.
fn add_ids(ids: &mut OrdSet<u64>, pages: &Held)
    ensures
        final(ids)@ == old(ids)@ + page_ids(viewed(pages@)),
{
    let ghost before = ids@;
    let n: usize = pages.len();
    let mut i: usize = 0;
    while i < n
        invariant
            i <= n,
            n == pages.keys().len(),
            pages.listed(),
            forall|id: u64| #[trigger] ids@.contains(id) <==> before.contains(id) || exists|j: int| 0 <= j < i && (#[trigger] pages@[pages.keys()[j]])@.id == id,
        decreases n - i,
    {
        let ghost earlier = ids@;
        let id: u64 = pages.value_at(i).id;
        ids.insert(id);
        assert forall|x: u64| #[trigger] ids@.contains(x) <==> before.contains(x) || exists|j: int| 0 <= j < i + 1 && (#[trigger] pages@[pages.keys()[j]])@.id == x by {
            assert(ids@.contains(x) <==> earlier.contains(x) || x == id);
            if x == id {
                assert(pages@[pages.keys()[i as int]]@.id == x);
            } else if earlier.contains(x) && !before.contains(x) {
                let j = choose|j: int| 0 <= j < i && (#[trigger] pages@[pages.keys()[j]])@.id == x;
                assert(0 <= j < i + 1 && pages@[pages.keys()[j]]@.id == x);
            }
        }
        i += 1;
    }
    let ghost shown = viewed(pages@);
    assert forall|id: u64| #[trigger] ids@.contains(id) <==> before.contains(id) || page_ids(shown).contains(id) by {
        if ids@.contains(id) && !before.contains(id) {
            let j = choose|j: int| 0 <= j < n && (#[trigger] pages@[pages.keys()[j]])@.id == id;
            assert(shown.contains_key(pages.keys()[j]) && shown[pages.keys()[j]].id == id);
        }
        if page_ids(shown).contains(id) {
            let k = choose|k: PageKey| shown.contains_key(k) && (#[trigger] shown[k]).id == id;
            assert(pages@.contains_key(k));
            let j = choose|j: int| 0 <= j < n && pages.keys()[j] == k;
            assert(pages@[pages.keys()[j]]@.id == id);
        }
    }
    assert(ids@ =~= before + page_ids(shown));
}

} // verus!
