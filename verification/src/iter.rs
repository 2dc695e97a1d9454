use vstd::prelude::*;
use std::collections::HashMap;
use crate::area::Area;
use crate::entry::{Entry, EntryRef};
use crate::traversal::Traversal;
use crate::uuid_iter::UuidIter;

verus! {

broadcast use {vstd::std_specs::hash::group_hash_axioms, vstd::set::group_set_axioms};

/// A lazy walk over entries of a quadtree: the walk over identifiers, with each
/// identifier looked up in the store.
pub struct Iter<'a, V> {
    engine: UuidIter<'a>,
    store: &'a HashMap<u128, Entry<V>>,
}

impl<'a, V> Iter<'a, V> {
    /// The entries of the quadtree that is walked over, by identifier.
    pub closed spec fn entries(&self) -> Map<u128, Entry<V>> {
        self.store@
    }

    /// The identifiers of the entries that are still to come.
    pub closed spec fn remaining(&self) -> Set<u128> {
        self.engine.pending().intersect(self.store@.dom())
    }

    /// Only finitely many entries are still to come.
    pub proof fn lemma_remaining_finite(&self)
        ensures
            self.remaining().finite(),
    {
        self.engine.lemma_pending_finite();
    }

    pub(crate) fn over(engine: UuidIter<'a>, store: &'a HashMap<u128, Entry<V>>) -> (it: Iter<'a, V>)
        ensures
            it.entries() == store@,
            it.remaining() == engine.pending().intersect(store@.dom()),
    {
        Iter { engine, store }
    }

    /// The next entry, or `None` once each has been handed out.
    pub fn next(&mut self) -> (r: Option<EntryRef<'a, V>>)
        ensures
            final(self).entries() == old(self).entries(),
            match r {
                Some(e) => {
                    &&& old(self).remaining().contains(e.id)
                    &&& e.region == old(self).entries()[e.id].region
                    &&& *e.value == old(self).entries()[e.id].value
                    &&& final(self).remaining() == old(self).remaining().remove(e.id)
                },
                None => old(self).remaining() == Set::<u128>::empty() && final(self).remaining()
                    == Set::<u128>::empty(),
            },
    {
        let store: &'a HashMap<u128, Entry<V>> = self.store;
        loop
            invariant
                self.store == store,
                store == old(self).store,
                self.remaining() == old(self).remaining(),
            decreases self.engine.pending().len(),
        {
            proof {
                self.engine.lemma_pending_finite();
            }
            match self.engine.next() {
                None => {
                    return None;
                },
                Some(id) => {
                    match store.get(&id) {
                        Some(entry) => {
                            return Some(EntryRef { id, region: entry.region, value: &entry.value });
                        },
                        None => {},
                    }
                },
            }
        }
    }
}

/// A lazy walk over the entries that a query selects.
pub struct Query<'a, V> {
    iter: Iter<'a, V>,
    region: Area,
    mode: Traversal,
}

impl<'a, V> Query<'a, V> {
    /// The entries of the quadtree that is queried, by identifier.
    pub closed spec fn entries(&self) -> Map<u128, Entry<V>> {
        self.iter.entries()
    }

    /// The identifiers of the entries that are still to come.
    pub closed spec fn remaining(&self) -> Set<u128> {
        Set::new(
            |id: u128|
                self.iter.remaining().contains(id) && self.mode.eval(
                    self.region,
                    self.iter.entries()[id].region,
                ),
        )
    }

    /// Only finitely many entries are still to come.
    pub proof fn lemma_remaining_finite(&self)
        ensures
            self.remaining().finite(),
    {
        self.iter.lemma_remaining_finite();
        vstd::set_lib::lemma_set_subset_finite(self.iter.remaining(), self.remaining());
    }

    pub(crate) fn over(iter: Iter<'a, V>, region: Area, mode: Traversal) -> (q: Query<'a, V>)
        ensures
            q.entries() == iter.entries(),
            q.remaining() == Set::new(
                |id: u128|
                    iter.remaining().contains(id) && mode.eval(region, iter.entries()[id].region),
            ),
    {
        Query { iter, region, mode }
    }

    /// The next entry that the query selects, or `None` once each has been handed
    /// out.
    pub fn next(&mut self) -> (r: Option<EntryRef<'a, V>>)
        ensures
            final(self).entries() == old(self).entries(),
            match r {
                Some(e) => {
                    &&& old(self).remaining().contains(e.id)
                    &&& e.region == old(self).entries()[e.id].region
                    &&& *e.value == old(self).entries()[e.id].value
                    &&& final(self).remaining() == old(self).remaining().remove(e.id)
                },
                None => old(self).remaining() == Set::<u128>::empty() && final(self).remaining()
                    == Set::<u128>::empty(),
            },
    {
        loop
            invariant
                self.region == old(self).region,
                self.mode == old(self).mode,
                self.iter.entries() == old(self).iter.entries(),
                self.remaining() == old(self).remaining(),
            decreases self.iter.remaining().len(),
        {
            proof {
                self.iter.lemma_remaining_finite();
            }
            match self.iter.next() {
                None => {
                    return None;
                },
                Some(e) => {
                    if self.mode.eval(self.region, e.region) {
                        return Some(e);
                    }
                },
            }
        }
    }
}

/// A lazy walk over the regions of the entries of a quadtree.
pub struct Regions<'a, V> {
    iter: Iter<'a, V>,
}

impl<'a, V> Regions<'a, V> {
    /// The entries of the quadtree that is walked over, by identifier.
    pub closed spec fn entries(&self) -> Map<u128, Entry<V>> {
        self.iter.entries()
    }

    /// The identifiers of the entries whose regions are still to come.
    pub closed spec fn remaining(&self) -> Set<u128> {
        self.iter.remaining()
    }

    pub(crate) fn over(iter: Iter<'a, V>) -> (it: Regions<'a, V>)
        ensures
            it.entries() == iter.entries(),
            it.remaining() == iter.remaining(),
    {
        Regions { iter }
    }

    /// The region of the next entry, or `None` once each has been handed out.
    pub fn next(&mut self) -> (r: Option<Area>)
        ensures
            final(self).entries() == old(self).entries(),
            match r {
                Some(region) => exists|id: u128|
                    {
                        &&& #[trigger] old(self).remaining().contains(id)
                        &&& region == old(self).entries()[id].region
                        &&& final(self).remaining() == old(self).remaining().remove(id)
                    },
                None => old(self).remaining() == Set::<u128>::empty() && final(self).remaining()
                    == Set::<u128>::empty(),
            },
    {
        match self.iter.next() {
            Some(e) => {
                assert(old(self).remaining().contains(e.id));
                Some(e.region)
            },
            None => None,
        }
    }
}

/// A lazy walk over the values of the entries of a quadtree.
pub struct Values<'a, V> {
    iter: Iter<'a, V>,
}

impl<'a, V> Values<'a, V> {
    /// The entries of the quadtree that is walked over, by identifier.
    pub closed spec fn entries(&self) -> Map<u128, Entry<V>> {
        self.iter.entries()
    }

    /// The identifiers of the entries whose values are still to come.
    pub closed spec fn remaining(&self) -> Set<u128> {
        self.iter.remaining()
    }

    pub(crate) fn over(iter: Iter<'a, V>) -> (it: Values<'a, V>)
        ensures
            it.entries() == iter.entries(),
            it.remaining() == iter.remaining(),
    {
        Values { iter }
    }

    /// The value of the next entry, or `None` once each has been handed out.
    pub fn next(&mut self) -> (r: Option<&'a V>)
        ensures
            final(self).entries() == old(self).entries(),
            match r {
                Some(value) => exists|id: u128|
                    {
                        &&& #[trigger] old(self).remaining().contains(id)
                        &&& *value == old(self).entries()[id].value
                        &&& final(self).remaining() == old(self).remaining().remove(id)
                    },
                None => old(self).remaining() == Set::<u128>::empty() && final(self).remaining()
                    == Set::<u128>::empty(),
            },
    {
        match self.iter.next() {
            Some(e) => {
                assert(old(self).remaining().contains(e.id));
                Some(e.value)
            },
            None => None,
        }
    }
}

/// A walk over the entries of a quadtree that was given up for it, which hands
/// the entries out by value.
pub struct IntoIter<V> {
    ids: Vec<u128>,
    store: HashMap<u128, Entry<V>>,
}

impl<V> IntoIter<V> {
    /// The entries that are still to come, by identifier.
    pub closed spec fn remaining(&self) -> Map<u128, Entry<V>> {
        self.store@.restrict(self.ids@.to_set())
    }

    pub(crate) fn over(ids: Vec<u128>, store: HashMap<u128, Entry<V>>) -> (it: IntoIter<V>)
        ensures
            it.remaining() == store@.restrict(ids@.to_set()),
    {
        IntoIter { ids, store }
    }

    /// The next entry, or `None` once each has been handed out.
    pub fn next(&mut self) -> (r: Option<Entry<V>>)
        ensures
            match r {
                Some(e) => exists|id: u128|
                    {
                        &&& #[trigger] old(self).remaining().dom().contains(id)
                        &&& e == old(self).remaining()[id]
                        &&& final(self).remaining() == old(self).remaining().remove(id)
                    },
                None => old(self).remaining() == Map::<u128, Entry<V>>::empty()
                    && final(self).remaining() == Map::<u128, Entry<V>>::empty(),
            },
    {
        broadcast use vstd::seq_lib::group_seq_properties;

        loop
            invariant
                self.remaining() == old(self).remaining(),
            decreases self.ids@.len(),
        {
            let ghost before = *self;
            match self.ids.pop() {
                None => {
                    return None;
                },
                Some(id) => {
                    assert(before.ids@ =~= self.ids@.push(id));
                    match self.store.remove(&id) {
                        Some(e) => {
                            assert(before.remaining().dom().contains(id));
                            return Some(e);
                        },
                        None => {},
                    }
                },
            }
        }
    }
}

} // verus!
