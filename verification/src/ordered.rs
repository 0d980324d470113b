//! Ordered maps and sets kept as sorted vectors.

use vstd::prelude::*;
#[allow(unused_imports)]
use vstd::string::StringSliceAdditionalSpecFns;

verus! {

/// Where one key stands relative to another.
#[derive(Clone, Copy, PartialEq, Eq, Structural, Debug)]
pub enum Position {
    Before,
    Same,
    After,
}

/// A type whose views are strictly and totally ordered.
pub trait Key: View + Sized {
    spec fn less(a: Self::V, b: Self::V) -> bool;

    proof fn less_total(a: Self::V, b: Self::V)
        ensures
            Self::less(a, b) || a == b || Self::less(b, a),
    ;

    proof fn less_irreflexive(a: Self::V)
        ensures
            !Self::less(a, a),
    ;

    proof fn less_transitive(a: Self::V, b: Self::V, c: Self::V)
        requires
            Self::less(a, b),
            Self::less(b, c),
        ensures
            Self::less(a, c),
    ;

    fn position(&self, other: &Self) -> (p: Position)
        ensures
            p is Before ==> Self::less(self@, other@),
            p is Same ==> self@ == other@,
            p is After ==> Self::less(other@, self@),
    ;

    fn duplicate(&self) -> (copy: Self)
        ensures
            copy@ == self@,
    ;
}

impl Key for u64 {
    open spec fn less(a: u64, b: u64) -> bool {
        a < b
    }

    proof fn less_total(a: u64, b: u64) {
    }

    proof fn less_irreflexive(a: u64) {
    }

    proof fn less_transitive(a: u64, b: u64, c: u64) {
    }

    fn position(&self, other: &u64) -> (p: Position) {
        if *self < *other {
            Position::Before
        } else if *self == *other {
            Position::Same
        } else {
            Position::After
        }
    }

    fn duplicate(&self) -> (copy: u64) {
        *self
    }
}

impl Key for u32 {
    open spec fn less(a: u32, b: u32) -> bool {
        a < b
    }

    proof fn less_total(a: u32, b: u32) {
    }

    proof fn less_irreflexive(a: u32) {
    }

    proof fn less_transitive(a: u32, b: u32, c: u32) {
    }

    fn position(&self, other: &u32) -> (p: Position) {
        if *self < *other {
            Position::Before
        } else if *self == *other {
            Position::Same
        } else {
            Position::After
        }
    }

    fn duplicate(&self) -> (copy: u32) {
        *self
    }
}

impl Key for usize {
    open spec fn less(a: usize, b: usize) -> bool {
        a < b
    }

    proof fn less_total(a: usize, b: usize) {
    }

    proof fn less_irreflexive(a: usize) {
    }

    proof fn less_transitive(a: usize, b: usize, c: usize) {
    }

    fn position(&self, other: &usize) -> (p: Position) {
        if *self < *other {
            Position::Before
        } else if *self == *other {
            Position::Same
        } else {
            Position::After
        }
    }

    fn duplicate(&self) -> (copy: usize) {
        *self
    }
}

/// Pairs are ordered by their first component, then by their second.
impl<A: Key, B: Key> Key for (A, B) {
    open spec fn less(a: (A::V, B::V), b: (A::V, B::V)) -> bool {
        A::less(a.0, b.0) || (a.0 == b.0 && B::less(a.1, b.1))
    }

    proof fn less_total(a: (A::V, B::V), b: (A::V, B::V)) {
        A::less_total(a.0, b.0);
        B::less_total(a.1, b.1);
    }

    proof fn less_irreflexive(a: (A::V, B::V)) {
        A::less_irreflexive(a.0);
        B::less_irreflexive(a.1);
    }

    proof fn less_transitive(a: (A::V, B::V), b: (A::V, B::V), c: (A::V, B::V)) {
        if A::less(a.0, b.0) && A::less(b.0, c.0) {
            A::less_transitive(a.0, b.0, c.0);
        }
        if B::less(a.1, b.1) && B::less(b.1, c.1) {
            B::less_transitive(a.1, b.1, c.1);
        }
    }

    fn position(&self, other: &(A, B)) -> (p: Position) {
        match self.0.position(&other.0) {
            Position::Before => Position::Before,
            Position::After => Position::After,
            Position::Same => self.1.position(&other.1),
        }
    }

    fn duplicate(&self) -> (copy: (A, B)) {
        (self.0.duplicate(), self.1.duplicate())
    }
}

/// Whether `k` is among the first `n` items.
pub open spec fn among<T>(items: Seq<T>, n: int, k: T) -> bool {
    exists|j: int| 0 <= j < n && items[j] == k
}

/// What is among the first `n + 1` items is among the first `n` or is the next one.
pub proof fn lemma_among<T>(items: Seq<T>, n: int)
    requires
        0 <= n < items.len(),
    ensures
        forall|k: T| #[trigger] among(items, n + 1, k) <==> among(items, n, k) || k == items[n],
{
    assert forall|k: T| #[trigger] among(items, n + 1, k) <==> among(items, n, k) || k == items[n] by {
        if among(items, n, k) {
            let j = choose|j: int| 0 <= j < n && items[j] == k;
            assert(0 <= j < n + 1 && items[j] == k);
        }
        if k == items[n] {
            assert(0 <= n < n + 1 && items[n] == k);
        }
    }
}

/// A map from keys to values, held in key order.
#[derive(Debug)]
pub struct OrdMap<K: Key, V> {
    entries: Vec<(K, V)>,
}

/// Whether every key stands before all later ones.
pub open spec fn ascending<K: Key>(keys: Seq<K::V>) -> bool {
    forall|i: int, j: int| 0 <= i < j < keys.len() ==> K::less(#[trigger] keys[i], #[trigger] keys[j])
}

impl<K: Key, V> OrdMap<K, V> {
    #[verifier::type_invariant]
    spec fn sorted(self) -> bool {
        ascending::<K>(self.keys())
    }

    /// The keys in their order.
    pub closed spec fn keys(self) -> Seq<K::V> {
        self.entries@.map_values(|e: (K, V)| e.0@)
    }

    spec fn holds(self, i: int, k: K::V) -> bool {
        0 <= i < self.entries@.len() && self.entries@[i].0@ == k
    }

    /// Whether the key sequence is what the map holds, in order.
    pub open spec fn listed(self) -> bool {
        &&& ascending::<K>(self.keys())
        &&& self.keys().no_duplicates()
        &&& self@.dom().finite()
        &&& self@.dom().len() == self.keys().len()
        &&& forall|k: K::V| #[trigger] self@.contains_key(k) <==> self.keys().contains(k)
        &&& forall|i: int| 0 <= i < self.keys().len() ==> self@.contains_key(#[trigger] self.keys()[i])
    }

    proof fn lemma_at(self, i: int)
        requires
            self.sorted(),
            0 <= i < self.entries@.len(),
        ensures
            self.keys()[i] == self.entries@[i].0@,
            self@.contains_key(self.entries@[i].0@),
            self@[self.entries@[i].0@] == self.entries@[i].1,
    {
        let k = self.entries@[i].0@;
        assert(self.holds(i, k));
        let j = choose|j: int| self.holds(j, k);
        if j != i {
            assert(self.keys()[i] == k && self.keys()[j] == k);
            K::less_irreflexive(k);
            if i < j {
                assert(K::less(self.keys()[i], self.keys()[j]));
            } else {
                assert(K::less(self.keys()[j], self.keys()[i]));
            }
        }
    }

    proof fn lemma_listed(self)
        requires
            self.sorted(),
        ensures
            self.listed(),
    {
        let ks = self.keys();
        assert forall|i: int, j: int| 0 <= i < ks.len() && 0 <= j < ks.len() && i != j implies ks[i] != ks[j] by {
            K::less_irreflexive(ks[i]);
            if i < j {
                assert(K::less(ks[i], ks[j]));
            } else {
                assert(K::less(ks[j], ks[i]));
            }
        }
        assert forall|k: K::V| #[trigger] self@.contains_key(k) <==> ks.contains(k) by {
            if self@.contains_key(k) {
                let i = choose|i: int| self.holds(i, k);
                assert(ks[i] == k);
            }
            if ks.contains(k) {
                let i = choose|i: int| 0 <= i < ks.len() && ks[i] == k;
                assert(self.holds(i, k));
            }
        }
        assert forall|i: int| 0 <= i < ks.len() implies self@.contains_key(#[trigger] ks[i]) by {
            assert(self.holds(i, ks[i]));
        }
        ks.unique_seq_to_set();
        assert(ks.to_set() =~= self@.dom());
    }

    pub fn new() -> (m: Self)
        ensures
            m@ == Map::<K::V, V>::empty(),
    {
        let m = OrdMap { entries: Vec::new() };
        assert(m@ =~= Map::<K::V, V>::empty());
        m
    }

    pub fn len(&self) -> (n: usize)
        ensures
            n == self.keys().len(),
            n == self@.dom().len(),
            self.listed(),
    {
        proof {
            use_type_invariant(self);
            self.lemma_listed();
        }
        self.entries.len()
    }

    pub fn is_empty(&self) -> (b: bool)
        ensures
            b <==> self@ == Map::<K::V, V>::empty(),
    {
        proof {
            use_type_invariant(self);
            self.lemma_listed();
            if self.keys().len() == 0 {
                assert(self@ =~= Map::<K::V, V>::empty());
            }
        }
        self.entries.len() == 0
    }

    /// The index at which `k` stands, or the one at which it would be put.
    fn find(&self, k: &K) -> (r: (usize, bool))
        requires
            self.sorted(),
        ensures
            r.0 <= self.entries@.len(),
            r.1 ==> self.holds(r.0 as int, k@),
            !r.1 ==> !self@.contains_key(k@),
            forall|i: int| 0 <= i < r.0 ==> K::less(#[trigger] self.keys()[i], k@),
            !r.1 ==> forall|i: int| r.0 <= i < self.entries@.len() ==> K::less(k@, #[trigger] self.keys()[i]),
    {
        let mut low: usize = 0;
        let mut high: usize = self.entries.len();
        while low < high
            invariant
                self.sorted(),
                low <= high <= self.entries@.len(),
                forall|i: int| 0 <= i < low ==> K::less(#[trigger] self.keys()[i], k@),
                forall|i: int| high <= i < self.entries@.len() ==> K::less(k@, #[trigger] self.keys()[i]),
            decreases high - low,
        {
            let mid: usize = low + (high - low) / 2;
            assert(self.keys()[mid as int] == self.entries@[mid as int].0@);
            match self.entries[mid].0.position(k) {
                Position::Same => {
                    assert(self.holds(mid as int, k@));
                    return (mid, true);
                },
                Position::Before => {
                    assert forall|i: int| 0 <= i < mid + 1 implies K::less(#[trigger] self.keys()[i], k@) by {
                        if i < mid {
                            K::less_transitive(self.keys()[i], self.keys()[mid as int], k@);
                        }
                    }
                    low = mid + 1;
                },
                Position::After => {
                    assert forall|i: int| mid <= i < self.entries@.len() implies K::less(k@, #[trigger] self.keys()[i]) by {
                        if i > mid {
                            K::less_transitive(k@, self.keys()[mid as int], self.keys()[i]);
                        }
                    }
                    high = mid;
                },
            }
        }
        proof {
            if self@.contains_key(k@) {
                let i = choose|i: int| self.holds(i, k@);
                assert(self.keys()[i] == k@);
                K::less_irreflexive(k@);
            }
        }
        (low, false)
    }

    pub fn get(&self, k: &K) -> (r: Option<&V>)
        ensures
            match r {
                Some(v) => self@.contains_key(k@) && *v == self@[k@],
                None => !self@.contains_key(k@),
            },
    {
        proof {
            use_type_invariant(self);
        }
        let (i, found) = self.find(k);
        if found {
            proof {
                self.lemma_at(i as int);
            }
            Some(&self.entries[i].1)
        } else {
            None
        }
    }

    pub fn contains_key(&self, k: &K) -> (b: bool)
        ensures
            b == self@.contains_key(k@),
    {
        self.get(k).is_some()
    }

    pub fn key_at(&self, i: usize) -> (k: &K)
        requires
            i < self.keys().len(),
        ensures
            k@ == self.keys()[i as int],
            self.listed(),
    {
        proof {
            use_type_invariant(self);
            self.lemma_at(i as int);
            self.lemma_listed();
        }
        &self.entries[i].0
    }

    pub fn value_at(&self, i: usize) -> (v: &V)
        requires
            i < self.keys().len(),
        ensures
            *v == self@[self.keys()[i as int]],
            self@.contains_key(self.keys()[i as int]),
    {
        proof {
            use_type_invariant(self);
            self.lemma_at(i as int);
        }
        &self.entries[i].1
    }

    /// Puts `v` under `k` and hands back what stood there.
    pub fn insert(&mut self, k: K, v: V) -> (r: Option<V>)
        ensures
            final(self)@ == old(self)@.insert(k@, v),
            match r {
                Some(was) => old(self)@.contains_key(k@) && was == old(self)@[k@],
                None => !old(self)@.contains_key(k@),
            },
    {
        proof {
            use_type_invariant(&*self);
        }
        let (i, found) = self.find(&k);
        let ghost before = *self;
        let ghost kv = k@;
        let mut entries: Vec<(K, V)> = Vec::new();
        std::mem::swap(&mut entries, &mut self.entries);
        let mut was: Option<V> = None;
        if found {
            let (_, value) = entries.remove(i);
            was = Some(value);
            proof {
                before.lemma_at(i as int);
            }
        }
        let ghost middle = entries@;
        entries.insert(i, (k, v));
        proof {
            let after = OrdMap { entries };
            let bk = before.keys();
            let ak = after.keys();
            assert forall|a: int, b: int| 0 <= a < b < ak.len() implies K::less(#[trigger] ak[a], #[trigger] ak[b]) by {
                let oa = if found || a <= i { a } else { a - 1 };
                let ob = if found || b <= i { b } else { b - 1 };
                if a < i {
                    assert(ak[a] == bk[a]);
                }
                if found && b > i {
                    assert(ak[b] == bk[b]);
                }
                if !found && b > i {
                    assert(ak[b] == bk[b - 1]);
                }
                if found && a > i {
                    assert(ak[a] == bk[a]);
                }
                if !found && a > i {
                    assert(ak[a] == bk[a - 1]);
                }
                if a < i && b < i {
                    assert(ak[b] == bk[b]);
                }
                if found {
                    assert(bk[i as int] == kv);
                }
            }
            assert(after.sorted());
            assert forall|x: K::V| #[trigger] after@.contains_key(x) <==> before@.insert(kv, v).contains_key(x) by {
                if after@.contains_key(x) {
                    let a = choose|a: int| after.holds(a, x);
                    if a < i {
                        assert(before.holds(a, x));
                    } else if a > i {
                        let o = if found { a } else { a - 1 };
                        assert(before.holds(o, x));
                    }
                }
                if before@.contains_key(x) {
                    let a = choose|a: int| before.holds(a, x);
                    if a < i {
                        assert(after.holds(a, x));
                    } else if found {
                        assert(after.holds(a, x));
                    } else {
                        assert(after.holds(a + 1, x));
                    }
                }
                if x == kv {
                    assert(after.holds(i as int, x));
                }
            }
            assert forall|x: K::V| #[trigger] after@.contains_key(x) implies after@[x] == before@.insert(kv, v)[x] by {
                let a = choose|a: int| after.holds(a, x);
                after.lemma_at(a);
                if a < i {
                    before.lemma_at(a);
                    assert(K::less(bk[a], kv));
                    K::less_irreflexive(kv);
                } else if a > i {
                    let o = if found { a } else { a - 1 };
                    before.lemma_at(o);
                    K::less_irreflexive(kv);
                    if found {
                        assert(K::less(bk[i as int], bk[o]));
                    } else {
                        assert(K::less(kv, bk[o]));
                    }
                }
            }
            assert(after@ =~= before@.insert(kv, v));
        }
        self.entries = entries;
        was
    }

    /// Takes `k` out of the map and hands back what stood under it.
    pub fn remove(&mut self, k: &K) -> (r: Option<V>)
        ensures
            final(self)@ == old(self)@.remove(k@),
            match r {
                Some(was) => old(self)@.contains_key(k@) && was == old(self)@[k@],
                None => !old(self)@.contains_key(k@) && final(self)@ == old(self)@,
            },
    {
        proof {
            use_type_invariant(&*self);
        }
        let (i, found) = self.find(k);
        if !found {
            assert(self@.remove(k@) =~= self@);
            return None;
        }
        let ghost before = *self;
        let mut entries: Vec<(K, V)> = Vec::new();
        std::mem::swap(&mut entries, &mut self.entries);
        let (_, was) = entries.remove(i);
        proof {
            before.lemma_at(i as int);
            let after = OrdMap { entries };
            let bk = before.keys();
            let ak = after.keys();
            assert forall|a: int, b: int| 0 <= a < b < ak.len() implies K::less(#[trigger] ak[a], #[trigger] ak[b]) by {
                let oa = if a < i { a } else { a + 1 };
                let ob = if b < i { b } else { b + 1 };
                assert(ak[a] == bk[oa]);
                assert(ak[b] == bk[ob]);
            }
            assert(after.sorted());
            assert forall|x: K::V| #[trigger] after@.contains_key(x) <==> before@.remove(k@).contains_key(x) by {
                if after@.contains_key(x) {
                    let a = choose|a: int| after.holds(a, x);
                    let o = if a < i { a } else { a + 1 };
                    assert(before.holds(o, x));
                    K::less_irreflexive(x);
                    if o < i {
                        assert(K::less(bk[o], bk[i as int]));
                    } else {
                        assert(K::less(bk[i as int], bk[o]));
                    }
                }
                if before@.contains_key(x) && x != k@ {
                    let a = choose|a: int| before.holds(a, x);
                    let n = if a < i { a } else { a - 1 };
                    assert(after.holds(n, x));
                }
            }
            assert forall|x: K::V| #[trigger] after@.contains_key(x) implies after@[x] == before@.remove(k@)[x] by {
                let a = choose|a: int| after.holds(a, x);
                after.lemma_at(a);
                let o = if a < i { a } else { a + 1 };
                before.lemma_at(o);
            }
            assert(after@ =~= before@.remove(k@));
        }
        self.entries = entries;
        Some(was)
    }

    /// Empties the map.
    pub fn clear(&mut self)
        ensures
            final(self)@ == Map::<K::V, V>::empty(),
    {
        self.entries = Vec::new();
        assert(self@ =~= Map::<K::V, V>::empty());
    }

    /// Hands the whole map over and leaves an empty one.
    pub fn take(&mut self) -> (m: Self)
        ensures
            m@ == old(self)@,
            final(self)@ == Map::<K::V, V>::empty(),
    {
        let mut m = OrdMap::new();
        std::mem::swap(&mut m, self);
        m
    }
}

impl<K: Key, V> View for OrdMap<K, V> {
    type V = Map<K::V, V>;

    closed spec fn view(&self) -> Map<K::V, V> {
        Map::new(
            |k: K::V| exists|i: int| self.holds(i, k),
            |k: K::V| self.entries@[choose|i: int| self.holds(i, k)].1,
        )
    }
}

/// A set of keys, held in key order.
#[derive(Debug)]
pub struct OrdSet<K: Key> {
    map: OrdMap<K, ()>,
}

impl<K: Key> View for OrdSet<K> {
    type V = Set<K::V>;

    closed spec fn view(&self) -> Set<K::V> {
        self.map@.dom()
    }
}

impl<K: Key> OrdSet<K> {
    /// The members in their order.
    pub closed spec fn members(self) -> Seq<K::V> {
        self.map.keys()
    }

    /// Whether the member sequence is what the set holds, in order.
    pub open spec fn listed(self) -> bool {
        &&& ascending::<K>(self.members())
        &&& self.members().no_duplicates()
        &&& self@.finite()
        &&& self@.len() == self.members().len()
        &&& forall|k: K::V| #[trigger] self@.contains(k) <==> self.members().contains(k)
        &&& forall|i: int| 0 <= i < self.members().len() ==> self@.contains(#[trigger] self.members()[i])
    }

    pub fn new() -> (s: Self)
        ensures
            s@ == Set::<K::V>::empty(),
    {
        let s = OrdSet { map: OrdMap::new() };
        assert(s@ =~= Set::<K::V>::empty());
        s
    }

    pub fn len(&self) -> (n: usize)
        ensures
            n == self.members().len(),
            n == self@.len(),
            self.listed(),
    {
        let n = self.map.len();
        assert forall|k: K::V| #[trigger] self@.contains(k) <==> self.members().contains(k) by {
            assert(self.map@.contains_key(k) <==> self.map.keys().contains(k));
        }
        n
    }

    pub fn is_empty(&self) -> (b: bool)
        ensures
            b <==> self@ == Set::<K::V>::empty(),
    {
        let b = self.map.is_empty();
        proof {
            if self@ == Set::<K::V>::empty() {
                assert(self.map@ =~= Map::<K::V, ()>::empty());
            }
            if self.map@ == Map::<K::V, ()>::empty() {
                assert(self@ =~= Set::<K::V>::empty());
            }
        }
        b
    }

    pub fn contains(&self, k: &K) -> (b: bool)
        ensures
            b == self@.contains(k@),
    {
        self.map.contains_key(k)
    }

    pub fn at(&self, i: usize) -> (k: &K)
        requires
            i < self.members().len(),
        ensures
            k@ == self.members()[i as int],
            self@.contains(k@),
    {
        self.map.key_at(i)
    }

    /// Adds `k`, and says whether it was not there before.
    pub fn insert(&mut self, k: K) -> (added: bool)
        ensures
            final(self)@ == old(self)@.insert(k@),
            added == !old(self)@.contains(k@),
    {
        let ghost before = self@;
        let ghost kv = k@;
        let added = self.map.insert(k, ()).is_none();
        assert(self@ =~= before.insert(kv));
        added
    }

    pub fn remove(&mut self, k: &K) -> (removed: bool)
        ensures
            final(self)@ == old(self)@.remove(k@),
            removed == old(self)@.contains(k@),
    {
        let ghost before = self@;
        let removed = self.map.remove(k).is_some();
        assert(self@ =~= before.remove(k@));
        removed
    }

    pub fn clear(&mut self)
        ensures
            final(self)@ == Set::<K::V>::empty(),
    {
        self.map.clear();
        assert(self@ =~= Set::<K::V>::empty());
    }

    pub fn duplicate(&self) -> (s: Self)
        ensures
            s@ == self@,
    {
        let mut s: OrdSet<K> = OrdSet::new();
        let n: usize = self.len();
        let mut i: usize = 0;
        while i < n
            invariant
                i <= n,
                n == self.members().len(),
                self.listed(),
                forall|k: K::V| #[trigger] s@.contains(k) <==> exists|j: int| 0 <= j < i && self.members()[j] == k,
            decreases n - i,
        {
            let ghost before = s@;
            let k = self.at(i).duplicate();
            let ghost kv = k@;
            s.insert(k);
            assert forall|x: K::V| #[trigger] s@.contains(x) <==> exists|j: int| 0 <= j < i + 1 && self.members()[j] == x by {
                if s@.contains(x) {
                    if x == kv {
                        assert(self.members()[i as int] == x);
                    } else {
                        assert(before.contains(x));
                    }
                }
                if exists|j: int| 0 <= j < i + 1 && self.members()[j] == x {
                    let j = choose|j: int| 0 <= j < i + 1 && self.members()[j] == x;
                    if j < i {
                        assert(before.contains(x));
                    }
                }
            }
            i += 1;
        }
        assert(s@ =~= self@);
        s
    }
}

/// Whether `a` comes before `b` in dictionary order.
pub open spec fn bytes_less(a: Seq<u8>, b: Seq<u8>) -> bool
    decreases a.len(),
{
    if b.len() == 0 {
        false
    } else if a.len() == 0 {
        true
    } else if a[0] != b[0] {
        a[0] < b[0]
    } else {
        bytes_less(a.drop_first(), b.drop_first())
    }
}

proof fn lemma_bytes_less_at(a: Seq<u8>, b: Seq<u8>, n: int)
    requires
        0 <= n <= a.len(),
        n <= b.len(),
        a.take(n) == b.take(n),
    ensures
        n == a.len() && n < b.len() ==> bytes_less(a, b),
        n < a.len() && n < b.len() && a[n] < b[n] ==> bytes_less(a, b),
    decreases n,
{
    if n > 0 {
        assert(a.take(n)[0] == a[0] && b.take(n)[0] == b[0]);
        assert(a.drop_first().take(n - 1) =~= a.take(n).drop_first());
        assert(b.drop_first().take(n - 1) =~= b.take(n).drop_first());
        lemma_bytes_less_at(a.drop_first(), b.drop_first(), n - 1);
    }
}

proof fn lemma_bytes_total(a: Seq<u8>, b: Seq<u8>)
    ensures
        bytes_less(a, b) || a == b || bytes_less(b, a),
    decreases a.len(),
{
    if a.len() > 0 && b.len() > 0 && a[0] == b[0] {
        lemma_bytes_total(a.drop_first(), b.drop_first());
        if a.drop_first() == b.drop_first() {
            assert(a =~= seq![a[0]] + a.drop_first());
            assert(b =~= seq![b[0]] + b.drop_first());
        }
    } else if a.len() == 0 && b.len() == 0 {
        assert(a =~= b);
    }
}

proof fn lemma_bytes_irreflexive(a: Seq<u8>)
    ensures
        !bytes_less(a, a),
    decreases a.len(),
{
    if a.len() > 0 {
        lemma_bytes_irreflexive(a.drop_first());
    }
}

proof fn lemma_bytes_transitive(a: Seq<u8>, b: Seq<u8>, c: Seq<u8>)
    requires
        bytes_less(a, b),
        bytes_less(b, c),
    ensures
        bytes_less(a, c),
    decreases a.len(),
{
    if a.len() > 0 && a[0] == b[0] && b[0] == c[0] {
        lemma_bytes_transitive(a.drop_first(), b.drop_first(), c.drop_first());
    }
}

/// A byte string that serves as a key.
#[derive(Debug)]
pub struct Name {
    bytes: Vec<u8>,
}

impl View for Name {
    type V = Seq<u8>;

    closed spec fn view(&self) -> Seq<u8> {
        self.bytes@
    }
}

impl Name {
    pub fn of(name: &str) -> (n: Name)
        ensures
            n@ == name.spec_bytes(),
    {
        Name { bytes: crate::bytes::copy_slice(name.as_bytes()) }
    }
}

impl Key for Name {
    open spec fn less(a: Seq<u8>, b: Seq<u8>) -> bool {
        bytes_less(a, b)
    }

    proof fn less_total(a: Seq<u8>, b: Seq<u8>) {
        lemma_bytes_total(a, b);
    }

    proof fn less_irreflexive(a: Seq<u8>) {
        lemma_bytes_irreflexive(a);
    }

    proof fn less_transitive(a: Seq<u8>, b: Seq<u8>, c: Seq<u8>) {
        lemma_bytes_transitive(a, b, c);
    }

    fn position(&self, other: &Name) -> (p: Position) {
        let mut i: usize = 0;
        while i < self.bytes.len() && i < other.bytes.len()
            invariant
                i <= self.bytes@.len(),
                i <= other.bytes@.len(),
                self.bytes@.take(i as int) == other.bytes@.take(i as int),
            decreases self.bytes@.len() - i,
        {
            if self.bytes[i] < other.bytes[i] {
                proof {
                    lemma_bytes_less_at(self@, other@, i as int);
                }
                return Position::Before;
            }
            if self.bytes[i] > other.bytes[i] {
                proof {
                    lemma_bytes_less_at(other@, self@, i as int);
                }
                return Position::After;
            }
            assert(self.bytes@.take(i + 1) =~= self.bytes@.take(i as int).push(self.bytes@[i as int]));
            assert(other.bytes@.take(i + 1) =~= other.bytes@.take(i as int).push(other.bytes@[i as int]));
            i += 1;
        }
        if i < other.bytes.len() {
            proof {
                lemma_bytes_less_at(self@, other@, i as int);
            }
            Position::Before
        } else if i < self.bytes.len() {
            proof {
                lemma_bytes_less_at(other@, self@, i as int);
            }
            Position::After
        } else {
            assert(self.bytes@.take(i as int) =~= self.bytes@);
            assert(other.bytes@.take(i as int) =~= other.bytes@);
            Position::Same
        }
    }

    fn duplicate(&self) -> (copy: Name) {
        Name { bytes: crate::bytes::copy_slice(self.bytes.as_slice()) }
    }
}

/// Keys that are numbers stand in the order of the numbers; pairs in that of their first parts, then of
/// their second.
pub proof fn keys_stand_in_order(a: Seq<u64>, b: Seq<u32>, c: Seq<usize>, d: (u32, u64), e: (u32, u64), i: int, j: int)
    requires
        0 <= i < j,
    ensures
        ascending::<u64>(a) && j < a.len() ==> a[i] < a[j],
        ascending::<u32>(b) && j < b.len() ==> b[i] < b[j],
        ascending::<usize>(c) && j < c.len() ==> c[i] < c[j],
        <(u32, u64)>::less(d, e) <==> d.0 < e.0 || d.0 == e.0 && d.1 < e.1,
{
}

} // verus!
