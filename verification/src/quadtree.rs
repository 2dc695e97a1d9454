use vstd::prelude::*;
use vstd::arithmetic::power2::pow2;
use std::collections::HashMap;
use crate::area::Area;
use crate::entry::Entry;
use crate::iter::{IntoIter, Iter, Query, Regions, Values};
use crate::qtinner::{reaches, QTInner};
use crate::traversal::Traversal;
use crate::uuid_iter::UuidIter;

verus! {

broadcast use vstd::std_specs::hash::group_hash_axioms;

/// A spatial index over a square of the integer grid: values stored under
/// rectangular regions, found again by the regions that they intersect or lie in.
///
/// The entries live in a store under their identifiers. The tree of quadrants
/// holds identifiers only, each at the deepest node whose region contains the
/// entry's region. To the outside the quadtree is the map from identifiers to
/// entries, its view.
pub struct Quadtree<V> {
    inner: QTInner,
    store: HashMap<u128, Entry<V>>,
}

/// Calls `uuid::Uuid::new_v4`, which draws a random version-4 identifier, and
/// `uuid::Uuid::as_u128` on it for its 128 bits. Nothing is claimed of the value:
/// two calls may well give the same one.
#[verifier::external_body]
fn fresh_token() -> (id: u128) {
    uuid::Uuid::new_v4().as_u128()
}

/// The region of each entry of a map of entries.
pub open spec fn regions_of<V>(m: Map<u128, Entry<V>>) -> Map<u128, Area> {
    Map::new(|id: u128| m.dom().contains(id), |id: u128| m[id].region)
}

/// Whether counting up from `start`, and from the largest identifier on to zero,
/// comes to `k` before it comes to `id`.
pub open spec fn counted_before(start: u128, k: u128, id: u128) -> bool {
    if start <= id {
        start <= k < id
    } else {
        start <= k || k < id
    }
}

/// The single cell at `pt` as a region.
pub open spec fn cell_at(pt: (i64, i64)) -> Area {
    Area { x: pt.0, y: pt.1, w: 1, h: 1 }
}

/// The entries `m` after the values of `points` were stored in turn, each at its
/// cell: `ids[i]` is the identifier that the value at place `i` was stored under,
/// or `None` where it was not stored.
pub open spec fn extended<V>(
    m: Map<u128, Entry<V>>,
    points: Seq<((i64, i64), V)>,
    ids: Seq<Option<u128>>,
) -> Map<u128, Entry<V>>
    decreases points.len(),
{
    if points.len() == 0 || ids.len() != points.len() {
        m
    } else {
        let before = extended(m, points.drop_last(), ids.drop_last());
        match ids.last() {
            Some(id) => before.insert(
                id,
                Entry { id, region: cell_at(points.last().0), value: points.last().1 },
            ),
            None => before,
        }
    }
}

impl<V> View for Quadtree<V> {
    type V = Map<u128, Entry<V>>;

    closed spec fn view(&self) -> Map<u128, Entry<V>> {
        self.store@
    }
}

impl<V> Quadtree<V> {
    /// The invariant of the quadtree: the tree of quadrants has its shape, holds
    /// exactly the identifiers of the store, each once and at the deepest node
    /// whose region contains the entry's region, and every entry carries the
    /// identifier that it is stored under.
    pub closed spec fn wf(&self) -> bool {
        &&& self.inner.shaped()
        &&& self.inner.distinct()
        &&& self.inner.ids() == self.store@.dom()
        &&& self.inner.placed(regions_of(self.store@))
        &&& forall|id: u128| #[trigger] self.store@.dom().contains(id) ==> self.store@[id].id == id
    }

    /// The square that the quadtree covers.
    pub closed spec fn coverage(&self) -> Area {
        self.inner.region
    }

    /// How many times the covered square may be bisected.
    pub closed spec fn spec_depth(&self) -> usize {
        self.inner.depth
    }

    /// Whether the quadtree is as `new_with_anchor` makes it: no entry, and the
    /// covered square not split.
    pub closed spec fn is_pristine(&self) -> bool {
        self.inner.is_pristine() && self.store@ == Map::<u128, Entry<V>>::empty()
    }

    /// Whether an entry at `region` can be stored under `id`: the covered square
    /// contains the region, and the identifier is not in use.
    pub open spec fn accepts(&self, id: u128, region: Area) -> bool {
        self.coverage().contains(region) && !self@.dom().contains(id)
    }

    /// The entries that a query for `req` is meant to find.
    pub open spec fn matching(&self, req: Area, mode: Traversal) -> Set<u128> {
        Set::new(|id: u128| self@.dom().contains(id) && mode.eval(req, self@[id].region))
    }

    /// The entries that a query for `req` finds: those of `matching` that the
    /// pruned walk through the tree of quadrants comes by. The walk comes by every
    /// entry that intersects `req` and by every entry within `req` that covers a
    /// cell, so only a strict query can miss an entry of `matching`, and only one
    /// that covers no cell.
    pub open spec fn selection(&self, req: Area, mode: Traversal) -> Set<u128> {
        Set::new(
            |id: u128|
                self@.dom().contains(id) && mode.eval(req, self@[id].region) && reaches(
                    self.coverage(),
                    self.spec_depth() as nat,
                    req,
                    self@[id].region,
                    mode,
                ),
        )
    }

    /// The pruned walk through the tree of quadrants comes by an entry exactly
    /// when `reaches` says so.
    proof fn lemma_walk(&self, req: Area, mode: Traversal)
        requires
            self.wf(),
        ensures
            forall|id: u128| #[trigger]
                self@.dom().contains(id) ==> self.inner.candidates(req, mode).contains(id)
                    == reaches(
                    self.coverage(),
                    self.spec_depth() as nat,
                    req,
                    self@[id].region,
                    mode,
                ),
    {
        assert forall|id: u128| #[trigger] self@.dom().contains(id) implies self.inner.candidates(
            req,
            mode,
        ).contains(id) == reaches(
            self.coverage(),
            self.spec_depth() as nat,
            req,
            self@[id].region,
            mode,
        ) by {
            self.inner.lemma_candidates_exact(regions_of(self.store@), req, mode, id);
        }
    }

    /// What holds of every well-formed quadtree: it covers a square whose side is
    /// two to the power of its depth, it has finitely many entries, and each entry
    /// carries its identifier and lies within the covered square.
    pub proof fn lemma_wf(&self)
        requires
            self.wf(),
        ensures
            self.spec_depth() <= 62,
            self.coverage().w == pow2(self.spec_depth() as nat),
            self.coverage().h == pow2(self.spec_depth() as nat),
            self@.dom().finite(),
            forall|id: u128| #[trigger]
                self@.dom().contains(id) ==> self@[id].id == id && self.coverage().contains(
                    self@[id].region,
                ),
    {
        assert forall|id: u128| #[trigger] self@.dom().contains(id) implies self@[id].id == id
            && self.coverage().contains(self@[id].region) by {
            self.inner.lemma_ids_within(regions_of(self.store@), id);
        }
    }

    /// A quadtree anchored at the origin.
    pub fn new(depth: usize) -> (q: Quadtree<V>)
        requires
            depth <= 62,
        ensures
            q.wf(),
            q.is_pristine(),
            q@ == Map::<u128, Entry<V>>::empty(),
            q.coverage().anchor_is((0, 0)),
            q.spec_depth() == depth,
    {
        proof {
            vstd::arithmetic::power2::lemma_pow2_strictly_increases(depth as nat, 63);
            vstd::arithmetic::power2::lemma2_to64_rest();
        }
        Quadtree::new_with_anchor((0, 0), depth)
    }

    /// A quadtree over the square that is anchored at `anchor` and whose side is
    /// two to the power of `depth`. The far edges of the square must be
    /// coordinates.
    pub fn new_with_anchor(anchor: (i64, i64), depth: usize) -> (q: Quadtree<V>)
        requires
            depth <= 62,
            anchor.0 + pow2(depth as nat) <= i64::MAX,
            anchor.1 + pow2(depth as nat) <= i64::MAX,
        ensures
            q.wf(),
            q.is_pristine(),
            q@ == Map::<u128, Entry<V>>::empty(),
            q.coverage().anchor_is(anchor),
            q.spec_depth() == depth,
    {
        let q = Quadtree { inner: QTInner::new(anchor, depth), store: HashMap::new() };
        proof {
            assert(q.inner.kept() =~= Set::<u128>::empty());
        }
        q
    }

    /// The anchor of the covered square.
    pub fn anchor(&self) -> (r: (i64, i64))
        ensures
            self.coverage().anchor_is(r),
    {
        self.inner.region.anchor()
    }

    /// The side of the covered square along x.
    pub fn width(&self) -> (r: u64)
        ensures
            r == self.coverage().w,
    {
        self.inner.region.width()
    }

    /// The side of the covered square along y.
    pub fn height(&self) -> (r: u64)
        ensures
            r == self.coverage().h,
    {
        self.inner.region.height()
    }

    /// How many times the covered square may be bisected.
    #[verifier::when_used_as_spec(spec_depth)]
    pub fn depth(&self) -> (r: usize)
        ensures
            r == self.spec_depth(),
    {
        self.inner.depth
    }

    /// The number of entries.
    pub fn len(&self) -> (r: usize)
        ensures
            r == self@.len(),
    {
        self.store.len()
    }

    /// Whether there is no entry.
    pub fn is_empty(&self) -> (r: bool)
        ensures
            r == (self@.len() == 0),
            r == (self@ == Map::<u128, Entry<V>>::empty()),
    {
        proof {
            assert(self@.len() == 0 <==> self@ =~= Map::<u128, Entry<V>>::empty()) by {
                if self@.len() == 0 {
                    self@.dom().lemma_len0_is_empty();
                }
            }
        }
        self.store.is_empty()
    }

    /// Whether the covered square contains the region at `anchor` of `size`.
    pub fn contains(&self, anchor: (i64, i64), size: (u64, u64)) -> (r: bool)
        ensures
            r == self.coverage().contains(Area { x: anchor.0, y: anchor.1, w: size.0, h: size.1 }),
    {
        self.inner.region.contains(Area::new(anchor, size))
    }

    /// Stores `value` at the region at `anchor` of `size` under the identifier
    /// `id`, unless the covered square does not contain the region or the
    /// identifier is in use. Gives the identifier back where the entry was stored.
    pub fn insert_with_id(&mut self, id: u128, anchor: (i64, i64), size: (u64, u64), value: V) -> (r:
        Option<u128>)
        requires
            old(self).wf(),
        ensures
            final(self).wf(),
            final(self).coverage() == old(self).coverage(),
            final(self).spec_depth() == old(self).spec_depth(),
            ({
                let region = Area { x: anchor.0, y: anchor.1, w: size.0, h: size.1 };
                match r {
                    Some(k) => k == id && old(self).accepts(id, region) && final(self)@ == old(
                        self,
                    )@.insert(id, Entry { id, region, value }),
                    None => !old(self).accepts(id, region) && *final(self) == *old(self),
                }
            }),
    {
        let region = Area::new(anchor, size);
        if !self.inner.region.contains(region) || self.store.contains_key(&id) {
            return None;
        }
        self.store.insert(id, Entry { id, region, value });
        proof {
            old(self).inner.lemma_placed_agree(
                regions_of(old(self).store@),
                regions_of(self.store@),
            );
        }
        self.inner.insert(region, id);
        Some(id)
    }

    /// The first identifier not in use that counting up from `start`, and from the
    /// largest identifier on to zero, comes to: `start` itself if it is free.
    pub fn unused_id(&self, start: u128) -> (id: u128)
        ensures
            !self@.dom().contains(id),
            !self@.dom().contains(start) ==> id == start,
            forall|k: u128|
                #![trigger counted_before(start, k, id)]
                #![trigger self@.dom().contains(k)]
                counted_before(start, k, id) ==> self@.dom().contains(k),
    {
        let count = self.store.len();
        let mut id = start;
        let mut wrapped = false;
        let ghost mut seen: Set<u128> = Set::empty();
        while self.store.contains_key(&id)
            invariant
                count == self@.len(),
                self@.dom().finite(),
                seen.finite(),
                seen.subset_of(self@.dom()),
                !wrapped ==> start <= id && seen.len() == id - start && forall|k: u128|
                    seen.contains(k) <==> start <= k < id,
                wrapped ==> id < start && seen.len() == (u128::MAX - start + 1) + id && forall|
                    k: u128,
                | seen.contains(k) <==> (start <= k || k < id),
            decreases self@.len() - seen.len(),
        {
            proof {
                let grown = seen.insert(id);
                vstd::set_lib::lemma_len_subset(grown, self@.dom());
                seen = grown;
            }
            if id == u128::MAX {
                id = 0;
                wrapped = true;
            } else {
                id = id + 1;
            }
        }
        id
    }

    /// Stores `value` at the region at `anchor` of `size` under a new identifier
    /// and gives the identifier back, unless the covered square does not contain
    /// the region: then nothing is stored. The identifier is drawn at random; in
    /// the unlikely case that it is in use, the next free one takes its place.
    pub fn insert(&mut self, anchor: (i64, i64), size: (u64, u64), value: V) -> (r: Option<u128>)
        requires
            old(self).wf(),
        ensures
            final(self).wf(),
            final(self).coverage() == old(self).coverage(),
            final(self).spec_depth() == old(self).spec_depth(),
            ({
                let region = Area { x: anchor.0, y: anchor.1, w: size.0, h: size.1 };
                match r {
                    Some(id) => old(self).accepts(id, region) && final(self)@ == old(self)@.insert(
                        id,
                        Entry { id, region, value },
                    ),
                    None => !old(self).coverage().contains(region) && *final(self) == *old(self),
                }
            }),
    {
        if !self.inner.region.contains(Area::new(anchor, size)) {
            return None;
        }
        let id = self.unused_id(fresh_token());
        self.insert_with_id(id, anchor, size, value)
    }

    /// Stores `value` at the single cell at `anchor`, as `insert` does for a
    /// region of one by one.
    pub fn insert_pt(&mut self, anchor: (i64, i64), value: V) -> (r: Option<u128>)
        requires
            old(self).wf(),
        ensures
            final(self).wf(),
            final(self).coverage() == old(self).coverage(),
            final(self).spec_depth() == old(self).spec_depth(),
            ({
                let region = cell_at(anchor);
                match r {
                    Some(id) => old(self).accepts(id, region) && final(self)@ == old(self)@.insert(
                        id,
                        Entry { id, region, value },
                    ),
                    None => !old(self).coverage().contains(region) && *final(self) == *old(self),
                }
            }),
    {
        self.insert(anchor, (1, 1), value)
    }

    /// Discards every entry and every split: the quadtree is again as it was made.
    pub fn reset(&mut self)
        requires
            old(self).wf(),
        ensures
            final(self).wf(),
            final(self).is_pristine(),
            final(self)@ == Map::<u128, Entry<V>>::empty(),
            final(self).coverage() == old(self).coverage(),
            final(self).spec_depth() == old(self).spec_depth(),
    {
        self.store.clear();
        self.inner.reset();
        proof {
            assert(self.inner.kept() =~= Set::<u128>::empty());
        }
    }

    /// A lazy walk over all entries, in no particular order.
    pub fn iter(&self) -> (it: Iter<'_, V>)
        requires
            self.wf(),
        ensures
            it.entries() == self@,
            it.remaining() == self@.dom(),
    {
        let it = Iter::over(UuidIter::new(&self.inner), &self.store);
        assert(it.remaining() =~= self@.dom());
        it
    }

    /// A lazy walk over the regions of all entries.
    pub fn regions(&self) -> (it: Regions<'_, V>)
        requires
            self.wf(),
        ensures
            it.entries() == self@,
            it.remaining() == self@.dom(),
    {
        Regions::over(self.iter())
    }

    /// A lazy walk over the values of all entries.
    pub fn values(&self) -> (it: Values<'_, V>)
        requires
            self.wf(),
        ensures
            it.entries() == self@,
            it.remaining() == self@.dom(),
    {
        Values::over(self.iter())
    }

    /// A lazy walk over the entries that `mode` selects for `req`. The walk through
    /// the tree of quadrants starts at the deepest node whose region contains
    /// `req`; each entry that it comes by is held against `req` itself. So an
    /// overlapping query finds every entry that intersects `req`, and a strict one
    /// every entry within `req` that covers a cell; of those that cover none it
    /// finds the ones that the walk comes by.
    pub fn query_by(&self, req: Area, mode: Traversal) -> (q: Query<'_, V>)
        requires
            self.wf(),
        ensures
            q.entries() == self@,
            q.remaining() == self.selection(req, mode),
    {
        let mut engine = UuidIter::new(&self.inner);
        engine.query_optimization(req, mode);
        let q = Query::over(Iter::over(engine, &self.store), req, mode);
        proof {
            self.lemma_walk(req, mode);
        }
        q
    }

    /// A lazy walk over the entries whose region intersects the region at
    /// `anchor` of `size`.
    pub fn query(&self, anchor: (i64, i64), size: (u64, u64)) -> (q: Query<'_, V>)
        requires
            self.wf(),
        ensures
            q.entries() == self@,
            q.remaining() == self.selection(
                Area { x: anchor.0, y: anchor.1, w: size.0, h: size.1 },
                Traversal::Overlapping,
            ),
    {
        self.query_by(Area::new(anchor, size), Traversal::Overlapping)
    }

    /// A lazy walk over entries whose region lies within the region at `anchor` of
    /// `size`: over each of them that covers a cell. An entry that covers no cell
    /// is found where the pruned walk comes by it, as `selection` says; one that
    /// lies on the line between two quadrants is kept under the first of them and
    /// is missed by a query that lies within the other.
    pub fn query_strict(&self, anchor: (i64, i64), size: (u64, u64)) -> (q: Query<'_, V>)
        requires
            self.wf(),
        ensures
            q.entries() == self@,
            q.remaining() == self.selection(
                Area { x: anchor.0, y: anchor.1, w: size.0, h: size.1 },
                Traversal::Strict,
            ),
    {
        self.query_by(Area::new(anchor, size), Traversal::Strict)
    }

    /// Gives the quadtree up for a walk that hands out all its entries by value.
    pub fn into_iter(self) -> (it: IntoIter<V>)
        requires
            self.wf(),
        ensures
            it.remaining() == self@,
    {
        let ids = self.all_ids();
        IntoIter::over(ids, self.store)
    }

    /// The identifiers of all entries, each once, as the walk hands them out.
    fn all_ids(&self) -> (ids: Vec<u128>)
        requires
            self.wf(),
        ensures
            ids@.no_duplicates(),
            ids@.to_set() == self@.dom(),
    {
        broadcast use vstd::seq_lib::group_seq_properties;

        let mut ids: Vec<u128> = Vec::new();
        let mut it = self.iter();
        loop
            invariant
                ids@.no_duplicates(),
                ids@.to_set().disjoint(it.remaining()),
                ids@.to_set() + it.remaining() == self@.dom(),
            ensures
                ids@.no_duplicates(),
                ids@.to_set() == self@.dom(),
            decreases it.remaining().len(),
        {
            proof {
                it.lemma_remaining_finite();
            }
            let ghost had = ids@;
            match it.next() {
                Some(e) => {
                    ids.push(e.id);
                    proof {
                        had.lemma_push_to_set_commute(e.id);
                    }
                },
                None => {
                    break ;
                },
            }
        }
        ids
    }

    /// The identifiers of the entries that `mode` selects for `req`, each once, as
    /// the query hands them out.
    fn selected_ids(&self, req: Area, mode: Traversal) -> (ids: Vec<u128>)
        requires
            self.wf(),
        ensures
            ids@.no_duplicates(),
            ids@.to_set() == self.selection(req, mode),
    {
        broadcast use vstd::seq_lib::group_seq_properties;

        let mut ids: Vec<u128> = Vec::new();
        let mut q = self.query_by(req, mode);
        loop
            invariant
                ids@.no_duplicates(),
                ids@.to_set().disjoint(q.remaining()),
                ids@.to_set() + q.remaining() == self.selection(req, mode),
            ensures
                ids@.no_duplicates(),
                ids@.to_set() == self.selection(req, mode),
            decreases q.remaining().len(),
        {
            proof {
                q.lemma_remaining_finite();
            }
            let ghost had = ids@;
            match q.next() {
                Some(e) => {
                    ids.push(e.id);
                    proof {
                        had.lemma_push_to_set_commute(e.id);
                    }
                },
                None => {
                    break ;
                },
            }
        }
        ids
    }

    /// An overlapping query finds exactly the entries whose region intersects the
    /// query region.
    pub proof fn lemma_overlapping_query(&self, req: Area)
        requires
            self.wf(),
        ensures
            self.selection(req, Traversal::Overlapping) == self.matching(
                req,
                Traversal::Overlapping,
            ),
    {
        self.lemma_walk(req, Traversal::Overlapping);
        assert forall|id: u128|
            self.matching(req, Traversal::Overlapping).contains(
                id,
            ) implies #[trigger] self.selection(req, Traversal::Overlapping).contains(id) by {
            self.inner.lemma_candidates_overlapping(regions_of(self.store@), req, id);
        }
        assert(self.selection(req, Traversal::Overlapping) =~= self.matching(
            req,
            Traversal::Overlapping,
        ));
    }

    /// A strict query finds only entries whose region lies within the query region,
    /// and among them every one whose region covers a cell.
    pub proof fn lemma_strict_query(&self, req: Area)
        requires
            self.wf(),
        ensures
            self.selection(req, Traversal::Strict).subset_of(
                self.matching(req, Traversal::Strict),
            ),
            forall|id: u128|
                self.matching(req, Traversal::Strict).contains(id) && self@[id].region.has_extent()
                    ==> #[trigger] self.selection(req, Traversal::Strict).contains(id),
    {
        self.lemma_walk(req, Traversal::Strict);
        assert forall|id: u128|
            self.matching(req, Traversal::Strict).contains(id)
                && self@[id].region.has_extent() implies #[trigger] self.selection(
            req,
            Traversal::Strict,
        ).contains(id) by {
            self.inner.lemma_candidates_strict(regions_of(self.store@), req, id);
        }
    }

    /// An entry that was just stored at a region that covers a cell is found by an
    /// overlapping query for that very region.
    pub proof fn lemma_insert_then_query(
        before: Quadtree<V>,
        after: Quadtree<V>,
        id: u128,
        region: Area,
        value: V,
    )
        requires
            before.wf(),
            after.wf(),
            before.accepts(id, region),
            after@ == before@.insert(id, Entry { id, region, value }),
            region.has_extent(),
        ensures
            after.selection(region, Traversal::Overlapping).contains(id),
            after@[id] == (Entry { id, region, value }),
    {
        after.lemma_overlapping_query(region);
    }

    /// An overlapping query for a region that intersects the region of no entry
    /// finds nothing.
    pub proof fn lemma_query_apart(&self, req: Area)
        requires
            self.wf(),
            forall|id: u128| #[trigger] self@.dom().contains(id) ==> !req.intersects(self@[id].region),
        ensures
            self.selection(req, Traversal::Overlapping) == Set::<u128>::empty(),
    {
    }

    /// Two quadtrees that are as they were made, over the same square, cannot be
    /// told apart: they have the same entries, accept the same entries, and
    /// answer every query alike.
    pub proof fn lemma_pristine_alike(a: Quadtree<V>, b: Quadtree<V>)
        requires
            a.wf(),
            b.wf(),
            a.is_pristine(),
            b.is_pristine(),
            a.coverage() == b.coverage(),
        ensures
            a@ == b@,
            a@ == Map::<u128, Entry<V>>::empty(),
            a.spec_depth() == b.spec_depth(),
            forall|id: u128, region: Area| a.accepts(id, region) == b.accepts(id, region),
            forall|req: Area, mode: Traversal|
                #![trigger a.selection(req, mode)]
                #![trigger b.selection(req, mode)]
                a.selection(req, mode) == b.selection(req, mode),
    {
        if a.inner.depth < b.inner.depth {
            vstd::arithmetic::power2::lemma_pow2_strictly_increases(
                a.inner.depth as nat,
                b.inner.depth as nat,
            );
        }
        if b.inner.depth < a.inner.depth {
            vstd::arithmetic::power2::lemma_pow2_strictly_increases(
                b.inner.depth as nat,
                a.inner.depth as nat,
            );
        }
        assert forall|req: Area, mode: Traversal|
            #![trigger a.selection(req, mode)]
            #![trigger b.selection(req, mode)]
            a.selection(req, mode) == b.selection(req, mode) by {
            assert(a.selection(req, mode) =~= b.selection(req, mode));
        }
    }

    /// Removes every entry whose region intersects the region at `anchor` of
    /// `size`, from the store and from the node that keeps it, and hands the
    /// removed entries back.
    pub fn delete(&mut self, anchor: (i64, i64), size: (u64, u64)) -> (removed: Vec<Entry<V>>)
        requires
            old(self).wf(),
        ensures
            final(self).wf(),
            final(self).coverage() == old(self).coverage(),
            final(self).spec_depth() == old(self).spec_depth(),
            ({
                let req = Area { x: anchor.0, y: anchor.1, w: size.0, h: size.1 };
                let gone = old(self).matching(req, Traversal::Overlapping);
                &&& final(self)@ == old(self)@.remove_keys(gone)
                &&& forall|id: u128| #[trigger]
                    final(self)@.dom().contains(id) ==> !req.intersects(final(self)@[id].region)
                &&& removed@.len() == gone.len()
                &&& forall|i: int|
                    0 <= i < removed@.len() ==> gone.contains(#[trigger] removed@[i].id)
                        && removed@[i] == old(self)@[removed@[i].id]
                &&& forall|i: int, j: int|
                    0 <= i < j < removed@.len() ==> removed@[i].id != removed@[j].id
            }),
            final(self)@.len() == old(self)@.len() - removed@.len(),
    {
        let req = Area::new(anchor, size);
        let ids = self.selected_ids(req, Traversal::Overlapping);
        let ghost gone = self.matching(req, Traversal::Overlapping);
        proof {
            self.lemma_overlapping_query(req);
            ids@.unique_seq_to_set();
        }
        let mut removed: Vec<Entry<V>> = Vec::new();
        let mut i: usize = 0;
        while i < ids.len()
            invariant
                i <= ids.len(),
                self.wf(),
                self.coverage() == old(self).coverage(),
                self.spec_depth() == old(self).spec_depth(),
                old(self).wf(),
                ids@.no_duplicates(),
                ids@.to_set() == gone,
                gone == old(self).matching(req, Traversal::Overlapping),
                self@ == old(self)@.remove_keys(ids@.subrange(0, i as int).to_set()),
                removed@.len() == i,
                forall|j: int|
                    0 <= j < i ==> (#[trigger] removed@[j]).id == ids@[j] && removed@[j] == old(
                        self,
                    )@[ids@[j]],
                self@.len() + i == old(self)@.len(),
            decreases ids.len() - i,
        {
            let id = ids[i];
            let ghost before = *self;
            proof {
                assert(gone.contains(id));
                assert(!ids@.subrange(0, i as int).to_set().contains(id));
                assert(ids@.subrange(0, i + 1) =~= ids@.subrange(0, i as int).push(id));
                ids@.subrange(0, i as int).lemma_push_to_set_commute(id);
            }
            match self.store.remove(&id) {
                Some(e) => {
                    self.inner.remove(e.region, id);
                    proof {
                        assert(self.inner.ids() =~= self.store@.dom());
                        self.inner.lemma_placed_agree(
                            regions_of(before.store@),
                            regions_of(self.store@),
                        );
                    }
                    removed.push(e);
                },
                None => {},
            }
            i = i + 1;
        }
        proof {
            assert(ids@.subrange(0, i as int) =~= ids@);
        }
        removed
    }

    /// Replaces the value of every entry by what `f` makes of it, once. Regions
    /// and identifiers stay as they are. It is enough that `f` can be called on
    /// the values that are stored.
    pub fn modify_all<F: Fn(V) -> V>(&mut self, f: F)
        requires
            old(self).wf(),
            forall|id: u128| #[trigger]
                old(self)@.dom().contains(id) ==> f.requires((old(self)@[id].value,)),
        ensures
            final(self).wf(),
            final(self).coverage() == old(self).coverage(),
            final(self).spec_depth() == old(self).spec_depth(),
            final(self)@.dom() == old(self)@.dom(),
            forall|id: u128| #[trigger]
                old(self)@.dom().contains(id) ==> {
                    &&& final(self)@[id].id == old(self)@[id].id
                    &&& final(self)@[id].region == old(self)@[id].region
                    &&& f.ensures((old(self)@[id].value,), final(self)@[id].value)
                },
    {
        let mut engine = UuidIter::new(&self.inner);
        loop
            invariant
                old(self).wf(),
                self.inner == old(self).inner,
                forall|id: u128| #[trigger]
                    old(self)@.dom().contains(id) ==> f.requires((old(self)@[id].value,)),
                self.store@.dom() == old(self).store@.dom(),
                engine.pending().subset_of(self.store@.dom()),
                forall|id: u128| #[trigger]
                    self.store@.dom().contains(id) ==> if engine.pending().contains(id) {
                        self.store@[id] == old(self).store@[id]
                    } else {
                        &&& self.store@[id].id == old(self).store@[id].id
                        &&& self.store@[id].region == old(self).store@[id].region
                        &&& f.ensures((old(self).store@[id].value,), self.store@[id].value)
                    },
            ensures
                self.inner == old(self).inner,
                self.store@.dom() == old(self).store@.dom(),
                forall|id: u128| #[trigger]
                    self.store@.dom().contains(id) ==> {
                        &&& self.store@[id].id == old(self).store@[id].id
                        &&& self.store@[id].region == old(self).store@[id].region
                        &&& f.ensures((old(self).store@[id].value,), self.store@[id].value)
                    },
            decreases engine.pending().len(),
        {
            proof {
                engine.lemma_pending_finite();
            }
            match engine.next() {
                Some(id) => {
                    match self.store.remove(&id) {
                        Some(e) => {
                            assert(old(self)@.dom().contains(id));
                            let value = f(e.value);
                            self.store.insert(id, Entry { id: e.id, region: e.region, value });
                        },
                        None => {},
                    }
                },
                None => {
                    break ;
                },
            }
        }
        proof {
            assert(regions_of(self.store@) =~= regions_of(old(self).store@));
        }
    }

    /// Stores each value at the single cell of its point, one after the other as
    /// `insert_pt` does, and hands back what each `insert_pt` gave: the identifier
    /// that the value was stored under, or `None` where it was not stored.
    pub fn extend(&mut self, entries: Vec<((i64, i64), V)>) -> (ids: Vec<Option<u128>>)
        requires
            old(self).wf(),
        ensures
            final(self).wf(),
            final(self).coverage() == old(self).coverage(),
            final(self).spec_depth() == old(self).spec_depth(),
            ids@.len() == entries@.len(),
            final(self)@ == extended(old(self)@, entries@, ids@),
            forall|i: int|
                0 <= i < ids@.len() ==> match #[trigger] ids@[i] {
                    Some(id) => old(self).coverage().contains(cell_at(entries@[i].0)) && !extended(
                        old(self)@,
                        entries@.take(i),
                        ids@.take(i),
                    ).dom().contains(id),
                    None => !old(self).coverage().contains(cell_at(entries@[i].0)),
                },
    {
        let ghost all = entries@;
        let mut entries = entries;
        let mut turned: Vec<((i64, i64), V)> = Vec::new();
        while entries.len() > 0
            invariant
                entries@.len() + turned@.len() == all.len(),
                entries@ == all.take(entries@.len() as int),
                forall|j: int| 0 <= j < turned@.len() ==> turned@[j] == all[all.len() - 1 - j],
            decreases entries@.len(),
        {
            match entries.pop() {
                Some(e) => {
                    turned.push(e);
                },
                None => {},
            }
        }
        let mut ids: Vec<Option<u128>> = Vec::new();
        while turned.len() > 0
            invariant
                self.wf(),
                self.coverage() == old(self).coverage(),
                self.spec_depth() == old(self).spec_depth(),
                ids@.len() + turned@.len() == all.len(),
                forall|j: int| 0 <= j < turned@.len() ==> turned@[j] == all[all.len() - 1 - j],
                self@ == extended(old(self)@, all.take(ids@.len() as int), ids@),
                forall|i: int|
                    0 <= i < ids@.len() ==> match #[trigger] ids@[i] {
                        Some(id) => old(self).coverage().contains(cell_at(all[i].0)) && !extended(
                            old(self)@,
                            all.take(i),
                            ids@.take(i),
                        ).dom().contains(id),
                        None => !old(self).coverage().contains(cell_at(all[i].0)),
                    },
            decreases turned@.len(),
        {
            let ghost k = ids@.len() as int;
            let ghost had = ids@;
            match turned.pop() {
                Some(e) => {
                    let r = self.insert_pt(e.0, e.1);
                    ids.push(r);
                    proof {
                        assert(all.take(k + 1).drop_last() =~= all.take(k));
                        assert(ids@.drop_last() =~= had);
                        assert forall|i: int| 0 <= i < ids@.len() implies match #[trigger] ids@[i] {
                            Some(id) => old(self).coverage().contains(cell_at(all[i].0))
                                && !extended(old(self)@, all.take(i), ids@.take(i)).dom().contains(
                                id,
                            ),
                            None => !old(self).coverage().contains(cell_at(all[i].0)),
                        } by {
                            if i < k {
                                assert(ids@.take(i) =~= had.take(i));
                            }
                        }
                    }
                },
                None => {},
            }
        }
        ids
    }
}

} // verus!
