//! Counting how many holders refer to each identity.

use vstd::prelude::*;

use crate::ordered::{OrdMap, OrdSet};

verus! {

/// How many of the sets hold `id`.
pub open spec fn holders(sets: Seq<Set<u64>>, id: u64) -> nat
    decreases sets.len(),
{
    if sets.len() == 0 {
        0
    } else {
        holders(sets.drop_last(), id) + (if sets.last().contains(id) {
            1nat
        } else {
            0nat
        })
    }
}

/// The identities that at least one of the sets holds.
pub open spec fn held(sets: Seq<Set<u64>>) -> Set<u64> {
    Set::new(|id: u64| holders(sets, id) > 0)
}

/// The identities that more than one of the sets holds.
pub open spec fn held_twice(sets: Seq<Set<u64>>) -> Set<u64> {
    Set::new(|id: u64| holders(sets, id) > 1)
}

/// An identity is held exactly if it lies in one of the sets.
pub proof fn lemma_held(sets: Seq<Set<u64>>, id: u64)
    ensures
        holders(sets, id) <= sets.len(),
        held(sets).contains(id) <==> exists|i: int| 0 <= i < sets.len() && (#[trigger] sets[i]).contains(id),
    decreases sets.len(),
{
    if sets.len() > 0 {
        let rest = sets.drop_last();
        lemma_held(rest, id);
        assert(forall|i: int| 0 <= i < rest.len() ==> rest[i] == sets[i]);
        if exists|i: int| 0 <= i < sets.len() && (#[trigger] sets[i]).contains(id) {
            let i = choose|i: int| 0 <= i < sets.len() && (#[trigger] sets[i]).contains(id);
            if i < rest.len() {
                assert(rest[i].contains(id));
            }
        }
        if held(rest).contains(id) {
            let i = choose|i: int| 0 <= i < rest.len() && (#[trigger] rest[i]).contains(id);
            assert(sets[i].contains(id));
        }
        if sets.last().contains(id) {
            assert(sets[sets.len() - 1].contains(id));
        }
    }
}

/// An identity is held twice exactly if two of the sets hold it.
pub proof fn lemma_held_twice(sets: Seq<Set<u64>>, id: u64)
    ensures
        held_twice(sets).contains(id) <==> exists|i: int, j: int|
            0 <= i < j < sets.len() && (#[trigger] sets[i]).contains(id) && (#[trigger] sets[j]).contains(id),
    decreases sets.len(),
{
    if sets.len() > 0 {
        let rest = sets.drop_last();
        lemma_held_twice(rest, id);
        lemma_held(rest, id);
        assert(forall|i: int| 0 <= i < rest.len() ==> rest[i] == sets[i]);
        if exists|i: int, j: int| 0 <= i < j < sets.len() && (#[trigger] sets[i]).contains(id) && (#[trigger] sets[j]).contains(id) {
            let (i, j) = choose|i: int, j: int| 0 <= i < j < sets.len() && (#[trigger] sets[i]).contains(id) && (#[trigger] sets[j]).contains(id);
            assert(rest[i].contains(id));
            if j < rest.len() {
                assert(rest[j].contains(id));
            }
        }
        if held_twice(rest).contains(id) {
            let (i, j) = choose|i: int, j: int| 0 <= i < j < rest.len() && (#[trigger] rest[i]).contains(id) && (#[trigger] rest[j]).contains(id);
            assert(sets[i].contains(id) && sets[j].contains(id));
        } else if held_twice(sets).contains(id) {
            let i = choose|i: int| 0 <= i < rest.len() && (#[trigger] rest[i]).contains(id);
            assert(sets[i].contains(id) && sets[sets.len() - 1].contains(id));
        }
    }
}

/// A running count of the holders of each identity.
pub struct Census {
    references: OrdMap<u64, usize>,
    sets: Ghost<Seq<Set<u64>>>,
}

impl Census {
    /// The sets counted so far.
    pub closed spec fn sets(self) -> Seq<Set<u64>> {
        self.sets@
    }

    pub closed spec fn wf(self) -> bool {
        &&& forall|id: u64| #[trigger] self.references@.contains_key(id) <==> holders(self.sets@, id) > 0
        &&& forall|id: u64| #[trigger] self.references@.contains_key(id) ==> self.references@[id] == holders(self.sets@, id)
    }

    pub fn new() -> (c: Self)
        ensures
            c.wf(),
            c.sets() == Seq::<Set<u64>>::empty(),
    {
        Census { references: OrdMap::new(), sets: Ghost(Seq::empty()) }
    }

    /// Counts one more holder.
    pub fn count_set(&mut self, ids: &OrdSet<u64>)
        requires
            old(self).wf(),
            old(self).sets().len() < usize::MAX,
        ensures
            final(self).wf(),
            final(self).sets() == old(self).sets().push(ids@),
    {
        let ghost before = self.sets@;
        let n: usize = ids.len();
        let mut i: usize = 0;
        while i < n
            invariant
                i <= n,
                n == ids.members().len(),
                ids.listed(),
                before.len() < usize::MAX,
                self.sets@ == before,
                forall|id: u64| #[trigger] self.references@.contains_key(id) <==> holders(before, id) > 0 || exists|j: int| 0 <= j < i && ids.members()[j] == id,
                forall|id: u64| #[trigger] self.references@.contains_key(id) ==> self.references@[id] == holders(before, id) + (if exists|j: int| 0 <= j < i && ids.members()[j] == id { 1nat } else { 0nat }),
            decreases n - i,
        {
            let id: u64 = *ids.at(i);
            proof {
                lemma_held(before, id);
            }
            let ghost known = self.references@;
            assert(!exists|j: int| 0 <= j < i && ids.members()[j] == id);
            let count: usize = match self.references.get(&id) {
                Some(count) => *count,
                None => 0,
            };
            self.references.insert(id, count + 1);
            assert forall|x: u64| #[trigger] self.references@.contains_key(x) <==> holders(before, x) > 0 || exists|j: int| 0 <= j < i + 1 && ids.members()[j] == x by {
                if x == id {
                    assert(ids.members()[i as int] == x);
                } else {
                    assert(known.contains_key(x) <==> self.references@.contains_key(x));
                    if exists|j: int| 0 <= j < i && ids.members()[j] == x {
                        let j = choose|j: int| 0 <= j < i && ids.members()[j] == x;
                        assert(0 <= j < i + 1 && ids.members()[j] == x);
                    }
                }
            }
            assert forall|x: u64| #[trigger] self.references@.contains_key(x) implies self.references@[x] == holders(before, x) + (if exists|j: int| 0 <= j < i + 1 && ids.members()[j] == x { 1nat } else { 0nat }) by {
                if x == id {
                    assert(ids.members()[i as int] == x);
                } else {
                    assert(known.contains_key(x));
                    if exists|j: int| 0 <= j < i && ids.members()[j] == x {
                        let j = choose|j: int| 0 <= j < i && ids.members()[j] == x;
                        assert(0 <= j < i + 1 && ids.members()[j] == x);
                    }
                }
            }
            i += 1;
        }
        self.sets = Ghost(before.push(ids@));
        proof {
            let after = before.push(ids@);
            assert(after.drop_last() =~= before);
            assert forall|id: u64| holders(after, id) == holders(before, id) + (if exists|j: int| 0 <= j < n && ids.members()[j] == id { 1nat } else { 0nat }) by {
                assert(ids@.contains(id) <==> ids.members().contains(id));
            }
        }
    }

    /// How many identities have a holder.
    pub fn resident(&self) -> (n: usize)
        requires
            self.wf(),
        ensures
            n == held(self.sets()).len(),
            held(self.sets()).finite(),
    {
        let n = self.references.len();
        assert(self.references@.dom() =~= held(self.sets()));
        n
    }

    /// How many identities have more than one holder.
    pub fn shared(&self) -> (n: usize)
        requires
            self.wf(),
        ensures
            n == held_twice(self.sets()).len(),
            held_twice(self.sets()).finite(),
    {
        let total: usize = self.references.len();
        let ghost keys = self.references.keys();
        let ghost mut seen: Set<u64> = Set::empty();
        let mut n: usize = 0;
        let mut i: usize = 0;
        while i < total
            invariant
                i <= total,
                n <= i,
                self.wf(),
                total == self.references.keys().len(),
                keys == self.references.keys(),
                self.references.listed(),
                seen.finite(),
                seen.len() == n,
                forall|id: u64| #[trigger] seen.contains(id) <==> (exists|j: int| 0 <= j < i && keys[j] == id) && holders(self.sets@, id) > 1,
            decreases total - i,
        {
            let ghost before = seen;
            let ghost id = keys[i as int];
            assert(!seen.contains(id));
            if *self.references.value_at(i) > 1 {
                n += 1;
                proof {
                    seen = seen.insert(id);
                }
            }
            assert forall|x: u64| #[trigger] seen.contains(x) <==> (exists|j: int| 0 <= j < i + 1 && keys[j] == x) && holders(self.sets@, x) > 1 by {
                assert(seen.contains(x) <==> before.contains(x) || (x == id && holders(self.sets@, x) > 1));
                if exists|j: int| 0 <= j < i && keys[j] == x {
                    let j = choose|j: int| 0 <= j < i && keys[j] == x;
                    assert(0 <= j < i + 1 && keys[j] == x);
                }
                if x == id {
                    assert(keys[i as int] == x);
                }
            }
            i += 1;
        }
        proof {
            assert forall|id: u64| #[trigger] seen.contains(id) <==> held_twice(self.sets()).contains(id) by {
                if holders(self.sets@, id) > 1 {
                    assert(self.references@.contains_key(id));
                    assert(keys.contains(id));
                }
            }
            assert(seen =~= held_twice(self.sets()));
        }
        n
    }
}

} // verus!
