//! Maps whose past contents are sealed into shared immutable generations.

use std::sync::Arc;

use vstd::prelude::*;

use crate::ordered::{Key, OrdMap};
#[allow(unused_imports)]
use crate::ordered::{among, lemma_among};

verus! {

/// A value of which another handle can be made.
pub trait Share: Sized {
    fn share(&self) -> (other: Self)
        ensures
            other == *self,
    ;
}

impl Share for bool {
    fn share(&self) -> (other: bool) {
        *self
    }
}

impl Share for u64 {
    fn share(&self) -> (other: u64) {
        *self
    }
}

impl<T> Share for Arc<T> {
    fn share(&self) -> (other: Arc<T>) {
        Arc::clone(self)
    }
}

/// Entries that no longer change, over those of an earlier generation.
#[derive(Debug)]
pub struct Generation<K: Key, V> {
    parent: Option<Arc<Generation<K, V>>>,
    entries: OrdMap<K, V>,
}

impl<K: Key, V: Share> Generation<K, V> {
    /// The entries seen from this generation.
    pub closed spec fn visible(self) -> Map<K::V, V>
        decreases self,
    {
        match self.parent {
            Some(parent) => parent.visible().union_prefer_right(self.entries@),
            None => self.entries@,
        }
    }

    fn get(&self, k: &K) -> (r: Option<&V>)
        ensures
            match r {
                Some(v) => self.visible().contains_key(k@) && *v == self.visible()[k@],
                None => !self.visible().contains_key(k@),
            },
        decreases self,
    {
        match self.entries.get(k) {
            Some(v) => Some(v),
            None => match &self.parent {
                Some(parent) => parent.get(k),
                None => None,
            },
        }
    }

    /// Lays everything seen from this generation over `entries`.
    fn collect(&self, entries: &mut OrdMap<K, V>)
        ensures
            final(entries)@ == old(entries)@.union_prefer_right(self.visible()),
        decreases self,
    {
        let ghost before = entries@;
        if let Some(parent) = &self.parent {
            parent.collect(entries);
        }
        extend(entries, &self.entries);
        assert(entries@ =~= before.union_prefer_right(self.visible()));
    }
}

/// Lays the entries of `from` over those of `into`.
pub fn extend<K: Key, V: Share>(into: &mut OrdMap<K, V>, from: &OrdMap<K, V>)
    ensures
        final(into)@ == old(into)@.union_prefer_right(from@),
{
    let ghost before = into@;
    let n: usize = from.len();
    let mut i: usize = 0;
    while i < n
        invariant
            i <= n,
            n == from.keys().len(),
            from.listed(),
            forall|k: K::V| #[trigger] into@.contains_key(k) <==> before.contains_key(k) || among(from.keys(), i as int, k),
            forall|k: K::V| #[trigger] into@.contains_key(k) ==> into@[k] == (if among(from.keys(), i as int, k) { from@[k] } else { before[k] }),
        decreases n - i,
    {
        let ghost earlier = into@;
        let ghost key = from.keys()[i as int];
        into.insert(from.key_at(i).duplicate(), from.value_at(i).share());
        proof {
            lemma_among(from.keys(), i as int);
        }
        i += 1;
    }
    assert forall|k: K::V| #[trigger] from@.contains_key(k) <==> among(from.keys(), n as int, k) by {
        assert(from@.contains_key(k) <==> from.keys().contains(k));
    }
    assert(into@ =~= before.union_prefer_right(from@));
}

/// A map that can be forked: changes of its own over a shared generation.
#[derive(Debug)]
pub struct Layered<K: Key, V> {
    base: Arc<Generation<K, V>>,
    changes: OrdMap<K, V>,
}

impl<K: Key, V: Share> View for Layered<K, V> {
    type V = Map<K::V, V>;

    open spec fn view(&self) -> Map<K::V, V> {
        self.sealed().union_prefer_right(self.own())
    }
}

impl<K: Key, V: Share> Layered<K, V> {
    /// The entries set since the map was last sealed.
    pub closed spec fn own(self) -> Map<K::V, V> {
        self.changes@
    }

    /// The entries of the generation below them.
    pub closed spec fn sealed(self) -> Map<K::V, V> {
        self.base.visible()
    }

    pub fn new() -> (m: Self)
        ensures
            m@ == Map::<K::V, V>::empty(),
            m.own() == Map::<K::V, V>::empty(),
            m.sealed() == Map::<K::V, V>::empty(),
    {
        let m = Layered { base: Arc::new(Generation { parent: None, entries: OrdMap::new() }), changes: OrdMap::new() };
        assert(m@ =~= Map::<K::V, V>::empty());
        m
    }

    /// A map over one sealed generation with the given entries.
    pub fn over(entries: OrdMap<K, V>) -> (m: Self)
        ensures
            m@ == entries@,
            m.own() == Map::<K::V, V>::empty(),
            m.sealed() == entries@,
    {
        let m = Layered { base: Arc::new(Generation { parent: None, entries }), changes: OrdMap::new() };
        assert(m@ =~= entries@);
        m
    }

    /// A map with the given entries as its own changes.
    pub fn with_changes(entries: OrdMap<K, V>) -> (m: Self)
        ensures
            m@ == entries@,
            m.own() == entries@,
            m.sealed() == Map::<K::V, V>::empty(),
    {
        let m = Layered { base: Arc::new(Generation { parent: None, entries: OrdMap::new() }), changes: entries };
        assert(m@ =~= entries@);
        m
    }

    pub fn get(&self, k: &K) -> (r: Option<&V>)
        ensures
            match r {
                Some(v) => self@.contains_key(k@) && *v == self@[k@],
                None => !self@.contains_key(k@),
            },
    {
        match self.changes.get(k) {
            Some(v) => Some(v),
            None => self.base.get(k),
        }
    }

    pub fn insert(&mut self, k: K, v: V)
        ensures
            final(self)@ == old(self)@.insert(k@, v),
            final(self).own() == old(self).own().insert(k@, v),
            final(self).sealed() == old(self).sealed(),
    {
        let ghost before = *self;
        let ghost kv = k@;
        self.changes.insert(k, v);
        assert(self@ =~= before@.insert(kv, v));
    }

    /// Whether something was set since the map was last sealed.
    pub fn has_changes(&self) -> (b: bool)
        ensures
            b <==> self.own() != Map::<K::V, V>::empty(),
    {
        !self.changes.is_empty()
    }

    /// Seals the changes into the generation.
    pub fn seal(&mut self)
        ensures
            final(self)@ == old(self)@,
            final(self).own() == Map::<K::V, V>::empty(),
            final(self).sealed() == old(self)@,
    {
        let ghost before = *self;
        if self.has_changes() {
            let entries = self.changes.take();
            let parent = Arc::clone(&self.base);
            self.base = Arc::new(Generation { parent: Some(parent), entries });
        } else {
            assert(before@ =~= before.sealed());
        }
        assert(self@ =~= before@);
    }

    /// Seals the changes and makes a second map over the same generation.
    pub fn fork(&mut self) -> (child: Self)
        ensures
            final(self)@ == old(self)@,
            final(self).own() == Map::<K::V, V>::empty(),
            final(self).sealed() == old(self)@,
            child@ == old(self)@,
            child.own() == Map::<K::V, V>::empty(),
            child.sealed() == old(self)@,
    {
        self.seal();
        let child = Layered { base: Arc::clone(&self.base), changes: OrdMap::new() };
        assert(child@ =~= self@);
        child
    }

    /// All entries that the map shows.
    pub fn visible(&self) -> (entries: OrdMap<K, V>)
        ensures
            entries@ == self@,
    {
        let mut entries: OrdMap<K, V> = OrdMap::new();
        self.base.collect(&mut entries);
        extend(&mut entries, &self.changes);
        assert(entries@ =~= self@);
        entries
    }
}

} // verus!
