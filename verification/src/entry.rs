use vstd::prelude::*;
use crate::area::Area;

verus! {

/// An entry of the tree by value: its identifier, its region and its value.
#[derive(Debug)]
pub struct Entry<V> {
    pub id: u128,
    pub region: Area,
    pub value: V,
}

impl<V> Entry<V> {
    pub fn id(&self) -> (r: u128)
        ensures
            r == self.id,
    {
        self.id
    }

    pub fn area(&self) -> (r: Area)
        ensures
            r == self.region,
    {
        self.region
    }

    /// The region as an anchor and dimensions.
    pub fn region(&self) -> (r: ((i64, i64), (u64, u64)))
        ensures
            r == self.region.inner(),
    {
        self.region.inner()
    }

    pub fn value_ref(&self) -> (r: &V)
        ensures
            *r == self.value,
    {
        &self.value
    }

    pub fn value(self) -> (r: V)
        ensures
            r == self.value,
    {
        self.value
    }

    pub fn inner(&self) -> (r: (((i64, i64), (u64, u64)), &V))
        ensures
            r.0 == self.region.inner(),
            *r.1 == self.value,
    {
        (self.region.inner(), &self.value)
    }
}

/// An entry of the tree with its value borrowed from the tree.
#[derive(Debug)]
pub struct EntryRef<'a, V> {
    pub id: u128,
    pub region: Area,
    pub value: &'a V,
}

impl<'a, V> EntryRef<'a, V> {
    pub fn id(&self) -> (r: u128)
        ensures
            r == self.id,
    {
        self.id
    }

    pub fn area(&self) -> (r: Area)
        ensures
            r == self.region,
    {
        self.region
    }

    /// The region as an anchor and dimensions.
    pub fn region(&self) -> (r: ((i64, i64), (u64, u64)))
        ensures
            r == self.region.inner(),
    {
        self.region.inner()
    }

    pub fn value(&self) -> (r: &'a V)
        ensures
            *r == *self.value,
    {
        self.value
    }

    pub fn inner(&self) -> (r: (((i64, i64), (u64, u64)), &'a V))
        ensures
            r.0 == self.region.inner(),
            *r.1 == *self.value,
    {
        (self.region.inner(), self.value)
    }
}

} // verus!
