//! Which pages a branch has to write back.

use vstd::prelude::*;

use crate::cache::store::NodeId;
use crate::layered::Layered;
#[allow(unused_imports)]
use crate::ordered::{among, ascending, lemma_among, Key};

verus! {

/// A page of a node: the node and the page's byte offset.
pub type PageKey = (NodeId, u64);

/// Pages marked dirty or clean by one branch, over the marks it was forked with.
#[derive(Debug)]
pub struct DirtyBranch {
    marks: Layered<PageKey, bool>,
}

impl View for DirtyBranch {
    type V = Map<PageKey, bool>;

    closed spec fn view(&self) -> Map<PageKey, bool> {
        self.marks@
    }
}

/// Whether `pages` are, in order, the pages of `node` that are marked dirty.
pub open spec fn dirty_pages(marks: Map<PageKey, bool>, node: NodeId, pages: Seq<PageKey>) -> bool {
    &&& ascending::<PageKey>(pages)
    &&& forall|k: PageKey| #[trigger] pages.contains(k) <==> k.0 == node && marks.contains_key(k) && marks[k]
}

impl DirtyBranch {
    pub fn new() -> (b: Self)
        ensures
            b@ == Map::<PageKey, bool>::empty(),
    {
        DirtyBranch { marks: Layered::new() }
    }

    pub fn fork(&mut self) -> (child: Self)
        ensures
            final(self)@ == old(self)@,
            child@ == old(self)@,
    {
        DirtyBranch { marks: self.marks.fork() }
    }

    pub fn mark_dirty(&mut self, key: PageKey)
        ensures
            final(self)@ == old(self)@.insert(key, true),
    {
        self.marks.insert(key, true);
    }

    pub fn mark_clean(&mut self, key: PageKey)
        ensures
            final(self)@ == old(self)@.insert(key, false),
    {
        self.marks.insert(key, false);
    }

    /// The dirty pages of a node, in order.
    pub fn pages_for_node(&self, node: NodeId) -> (pages: Vec<PageKey>)
        ensures
            dirty_pages(self@, node, pages@),
    {
        let visible = self.marks.visible();
        let n: usize = visible.len();
        let mut pages: Vec<PageKey> = Vec::new();
        let mut i: usize = 0;
        while i < n
            invariant
                i <= n,
                n == visible.keys().len(),
                visible@ == self@,
                visible.listed(),
                ascending::<PageKey>(pages@),
                forall|a: int| 0 <= a < pages@.len() ==> among(visible.keys(), i as int, #[trigger] pages@[a]),
                forall|k: PageKey| #[trigger] pages@.contains(k) <==> k.0 == node && self@[k] && among(visible.keys(), i as int, k),
            decreases n - i,
        {
            let ghost earlier = pages@;
            proof {
                lemma_among(visible.keys(), i as int);
            }
            let key: PageKey = *visible.key_at(i);
            if key.0 == node && *visible.value_at(i) {
                assert forall|a: int| 0 <= a < earlier.len() implies PageKey::less(#[trigger] earlier[a], key) by {
                    let j = choose|j: int| 0 <= j < i && visible.keys()[j] == earlier[a];
                    assert(PageKey::less(visible.keys()[j], visible.keys()[i as int]));
                }
                pages.push(key);
                assert forall|k: PageKey| #[trigger] pages@.contains(k) <==> earlier.contains(k) || k == key by {
                    if earlier.contains(k) {
                        let a = choose|a: int| 0 <= a < earlier.len() && earlier[a] == k;
                        assert(pages@[a] == k);
                    }
                    if k == key {
                        assert(pages@[earlier.len() as int] == k);
                    }
                }
            }
            i += 1;
        }
        assert forall|k: PageKey| #[trigger] pages@.contains(k) <==> k.0 == node && self@.contains_key(k) && self@[k] by {
            assert(visible@.contains_key(k) <==> visible.keys().contains(k));
        }
        pages
    }
}

} // verus!
