use vstd::prelude::*;
use vstd::arithmetic::power2::{lemma_pow2_unfold, pow2};
use crate::area::Area;
use crate::traversal::Traversal;

verus! {

/// The four children of a split node, in the order of [`Area::spec_quadrant`].
pub struct Subquadrants {
    pub q0: QTInner,
    pub q1: QTInner,
    pub q2: QTInner,
    pub q3: QTInner,
}

/// A node of the tree: a square region, the number of times it may still be
/// bisected, the identifiers kept at this node, and its four children once it has
/// been split. A node holds identifiers only; the entries live in the tree's store.
pub struct QTInner {
    pub region: Area,
    pub depth: usize,
    pub kept_ids: Vec<u128>,
    pub subquadrants: Option<Box<Subquadrants>>,
}

/// Calls `num::PrimInt::pow` on `2u64`, which for `u64` is `u64::pow`: the power
/// of two with the given exponent. The exponents whose power does not fit in a
/// `u64` are left out.
#[verifier::external_body]
fn pow_two(exp: u32) -> (r: u64)
    requires
        exp < 64,
    ensures
        r == pow2(exp as nat),
{
    num::PrimInt::pow(2u64, exp)
}

/// Removes `id` from a list without repetitions, and says whether it was there.
fn remove_value(v: &mut Vec<u128>, id: u128) -> (found: bool)
    requires
        old(v)@.no_duplicates(),
    ensures
        found == old(v)@.to_set().contains(id),
        final(v)@.no_duplicates(),
        final(v)@.to_set() == old(v)@.to_set().remove(id),
        final(v)@.len() == old(v)@.len() - if found { 1int } else { 0 },
{
    let mut i: usize = 0;
    while i < v.len()
        invariant
            i <= v.len(),
            v@ == old(v)@,
            v@.no_duplicates(),
            forall|j: int| 0 <= j < i ==> v@[j] != id,
        decreases v.len() - i,
    {
        if v[i] == id {
            let ghost s = v@;
            v.remove(i);
            proof {
                let t = v@;
                assert forall|x: u128| s.to_set().remove(id).contains(x) implies t.to_set().contains(
                    x,
                ) by {
                    let b = choose|b: int| 0 <= b < s.len() && s[b] == x;
                    let b2 = if b < i { b } else { b - 1 };
                    assert(t[b2] == x);
                }
                assert(t.to_set() =~= s.to_set().remove(id));
            }
            return true;
        }
        i = i + 1;
    }
    assert(v@.to_set().remove(id) =~= v@.to_set());
    false
}

/// Whether the pruned walk for `req` comes by an entry at `e`, in a tree over the
/// square `at` that may be bisected `depth` times.
///
/// While the square contains `req` and may be bisected, the walk goes on into the
/// first quadrant that contains `req`. An entry lies under the first quadrant that
/// contains its region, or is kept at the square itself where none does. So the
/// walk comes by the entry if both go the same way until the walk ends. Where the
/// walk goes on and the entry is kept, an overlapping walk takes the entry
/// along and a strict walk leaves it behind.
pub open spec fn reaches(at: Area, depth: nat, req: Area, e: Area, mode: Traversal) -> bool
    decreases depth,
{
    if depth == 0 || !at.contains(req) {
        true
    } else {
        match at.first_quadrant(req) {
            None => true,
            Some(i) => match at.first_quadrant(e) {
                None => mode == Traversal::Overlapping,
                Some(j) => i == j && reaches(at.quadrant(i), (depth - 1) as nat, req, e, mode),
            },
        }
    }
}

/// What two lists hold together is what either holds.
pub proof fn lemma_concat_to_set(a: Seq<u128>, b: Seq<u128>)
    ensures
        (a + b).to_set() == a.to_set() + b.to_set(),
{
    broadcast use vstd::seq_lib::group_seq_properties;

    assert((a + b).to_set() =~= a.to_set() + b.to_set());
}

impl QTInner {
    /// The identifiers kept at this node itself.
    pub open spec fn kept(self) -> Set<u128> {
        self.kept_ids@.to_set()
    }

    /// The identifiers kept at this node or anywhere below it.
    pub open spec fn ids(self) -> Set<u128>
        decreases self,
    {
        match self.subquadrants {
            None => self.kept(),
            Some(s) => self.kept() + s.q0.ids() + s.q1.ids() + s.q2.ids() + s.q3.ids(),
        }
    }

    /// The number of nodes at and below this node plus the number of identifiers
    /// kept in them, one for each time that an identifier is kept.
    pub open spec fn weight(self) -> nat
        decreases self,
    {
        match self.subquadrants {
            None => 1 + self.kept_ids@.len(),
            Some(s) => 1 + self.kept_ids@.len() + s.q0.weight() + s.q1.weight() + s.q2.weight()
                + s.q3.weight(),
        }
    }

    /// Whether `child` is what splitting this node puts at place `i`.
    pub open spec fn parents(self, child: QTInner, i: usize) -> bool {
        child.region == self.region.quadrant(i) && child.depth + 1 == self.depth
    }

    /// Whether this node holds nothing and has not been split.
    pub open spec fn is_pristine(self) -> bool {
        self.kept_ids@.len() == 0 && self.subquadrants is None
    }

    /// The shape of the tree: a node is a square whose side is two to the power of
    /// its depth and whose far edges are coordinates; the children of a split node
    /// are its four quadrants, one level lower; a node that was not split yet
    /// although it may be holds nothing.
    pub open spec fn shaped(self) -> bool
        decreases self,
    {
        &&& self.depth <= 62
        &&& self.region.w == pow2(self.depth as nat)
        &&& self.region.h == pow2(self.depth as nat)
        &&& self.region.right() <= i64::MAX
        &&& self.region.bottom() <= i64::MAX
        &&& match self.subquadrants {
            None => self.depth > 0 ==> self.kept_ids@.len() == 0,
            Some(s) => {
                &&& self.depth > 0
                &&& self.parents(s.q0, 0) && s.q0.shaped()
                &&& self.parents(s.q1, 1) && s.q1.shaped()
                &&& self.parents(s.q2, 2) && s.q2.shaped()
                &&& self.parents(s.q3, 3) && s.q3.shaped()
            },
        }
    }

    /// Whether every identifier below this node is kept exactly once.
    pub open spec fn distinct(self) -> bool
        decreases self,
    {
        &&& self.kept_ids@.no_duplicates()
        &&& match self.subquadrants {
            None => true,
            Some(s) => {
                &&& s.q0.distinct() && s.q1.distinct() && s.q2.distinct() && s.q3.distinct()
                &&& self.kept().disjoint(s.q0.ids())
                &&& self.kept().disjoint(s.q1.ids())
                &&& self.kept().disjoint(s.q2.ids())
                &&& self.kept().disjoint(s.q3.ids())
                &&& s.q0.ids().disjoint(s.q1.ids())
                &&& s.q0.ids().disjoint(s.q2.ids())
                &&& s.q0.ids().disjoint(s.q3.ids())
                &&& s.q1.ids().disjoint(s.q2.ids())
                &&& s.q1.ids().disjoint(s.q3.ids())
                &&& s.q2.ids().disjoint(s.q3.ids())
            },
        }
    }

    /// The place of the first child whose region contains `r`, if the node has been
    /// split and any does.
    pub open spec fn first_child(self, r: Area) -> Option<usize> {
        match self.subquadrants {
            None => None,
            Some(s) => if s.q0.region.contains(r) {
                Some(0usize)
            } else if s.q1.region.contains(r) {
                Some(1usize)
            } else if s.q2.region.contains(r) {
                Some(2usize)
            } else if s.q3.region.contains(r) {
                Some(3usize)
            } else {
                None
            },
        }
    }

    /// Whether this node is the right one to keep `id`, whose region `m` gives: the
    /// node's region contains that region, and no single child's region does.
    pub open spec fn keeps_well(self, id: u128, m: Map<u128, Area>) -> bool {
        &&& m.dom().contains(id)
        &&& self.region.contains(m[id])
        &&& self.first_child(m[id]) is None
    }

    /// Whether every identifier below this node is where insertion puts it: each
    /// under the first child whose region contains its region, which `m` gives,
    /// and kept at the node none of whose children contains it.
    pub open spec fn placed(self, m: Map<u128, Area>) -> bool
        decreases self,
    {
        &&& forall|id: u128| #[trigger] self.kept().contains(id) ==> self.keeps_well(id, m)
        &&& match self.subquadrants {
            None => true,
            Some(s) => {
                &&& s.q0.placed(m) && s.q1.placed(m) && s.q2.placed(m) && s.q3.placed(m)
                &&& forall|id: u128| #[trigger]
                    s.q0.ids().contains(id) ==> self.first_child(m[id]) == Some(0usize)
                &&& forall|id: u128| #[trigger]
                    s.q1.ids().contains(id) ==> self.first_child(m[id]) == Some(1usize)
                &&& forall|id: u128| #[trigger]
                    s.q2.ids().contains(id) ==> self.first_child(m[id]) == Some(2usize)
                &&& forall|id: u128| #[trigger]
                    s.q3.ids().contains(id) ==> self.first_child(m[id]) == Some(3usize)
            },
        }
    }

    /// What a pruned walk for `req` still visits. From this node it descends, while
    /// the node's region contains `req`, into the first child whose region contains
    /// `req`, and ends at the node where no child does. It visits everything at and
    /// below that node, and for `Traversal::Overlapping` also what is kept at the
    /// nodes it left behind.
    pub open spec fn candidates(self, req: Area, mode: Traversal) -> Set<u128>
        decreases self,
    {
        match self.subquadrants {
            Some(s) if self.region.contains(req) => {
                let passed = if mode == Traversal::Overlapping {
                    self.kept()
                } else {
                    Set::empty()
                };
                if s.q0.region.contains(req) {
                    passed + s.q0.candidates(req, mode)
                } else if s.q1.region.contains(req) {
                    passed + s.q1.candidates(req, mode)
                } else if s.q2.region.contains(req) {
                    passed + s.q2.candidates(req, mode)
                } else if s.q3.region.contains(req) {
                    passed + s.q3.candidates(req, mode)
                } else {
                    self.ids()
                }
            },
            _ => self.ids(),
        }
    }

    /// The node at which a pruned walk for `req` ends, and from which the walk over
    /// identifiers goes on: from this node down through the first child whose
    /// region contains `req`, as long as the node's own region contains `req`.
    /// The traversal mode has no part in it.
    pub open spec fn descent_end(self, req: Area) -> QTInner
        decreases self,
    {
        match self.subquadrants {
            Some(s) if self.region.contains(req) => {
                if s.q0.region.contains(req) {
                    s.q0.descent_end(req)
                } else if s.q1.region.contains(req) {
                    s.q1.descent_end(req)
                } else if s.q2.region.contains(req) {
                    s.q2.descent_end(req)
                } else if s.q3.region.contains(req) {
                    s.q3.descent_end(req)
                } else {
                    self
                }
            },
            _ => self,
        }
    }

    /// The identifiers that a pruned walk for `req` takes along on its way down to
    /// `descent_end`: for `Traversal::Overlapping` what each node that it leaves
    /// behind keeps, node after node from this one down; for `Traversal::Strict`
    /// nothing.
    pub open spec fn collected(self, req: Area, mode: Traversal) -> Seq<u128>
        decreases self,
    {
        match self.subquadrants {
            Some(s) if self.region.contains(req) => {
                let passed = if mode == Traversal::Overlapping {
                    self.kept_ids@
                } else {
                    Seq::empty()
                };
                if s.q0.region.contains(req) {
                    passed + s.q0.collected(req, mode)
                } else if s.q1.region.contains(req) {
                    passed + s.q1.collected(req, mode)
                } else if s.q2.region.contains(req) {
                    passed + s.q2.collected(req, mode)
                } else if s.q3.region.contains(req) {
                    passed + s.q3.collected(req, mode)
                } else {
                    Seq::empty()
                }
            },
            _ => Seq::empty(),
        }
    }

    /// Where a pruned walk ends, it stays: a second descent from there moves
    /// nowhere and takes nothing along. If the node that the walk set out from
    /// contains `req`, the node where it ends is the deepest on its way that
    /// does: its region contains `req` and none of its children's does.
    pub proof fn lemma_descent_end(self, req: Area, mode: Traversal)
        ensures
            self.descent_end(req).descent_end(req) == self.descent_end(req),
            self.descent_end(req).collected(req, mode) == Seq::<u128>::empty(),
            self.region.contains(req) ==> self.descent_end(req).region.contains(req)
                && self.descent_end(req).first_child(req) is None,
            !self.region.contains(req) ==> self.descent_end(req) == self && self.collected(
                req,
                mode,
            ) == Seq::<u128>::empty(),
        decreases self,
    {
        match self.subquadrants {
            Some(s) if self.region.contains(req) => {
                s.q0.lemma_descent_end(req, mode);
                s.q1.lemma_descent_end(req, mode);
                s.q2.lemma_descent_end(req, mode);
                s.q3.lemma_descent_end(req, mode);
            },
            _ => {},
        }
    }

    /// What a pruned walk still visits is what it took along and what is kept at
    /// and below the node where it ended.
    pub proof fn lemma_candidates_split(self, req: Area, mode: Traversal)
        ensures
            self.candidates(req, mode) == self.collected(req, mode).to_set() + self.descent_end(
                req,
            ).ids(),
        decreases self,
    {
        let passed = if mode == Traversal::Overlapping {
            self.kept_ids@
        } else {
            Seq::empty()
        };
        match self.subquadrants {
            Some(s) if self.region.contains(req) => {
                s.q0.lemma_candidates_split(req, mode);
                s.q1.lemma_candidates_split(req, mode);
                s.q2.lemma_candidates_split(req, mode);
                s.q3.lemma_candidates_split(req, mode);
                lemma_concat_to_set(passed, s.q0.collected(req, mode));
                lemma_concat_to_set(passed, s.q1.collected(req, mode));
                lemma_concat_to_set(passed, s.q2.collected(req, mode));
                lemma_concat_to_set(passed, s.q3.collected(req, mode));
            },
            _ => {},
        }
        assert(Seq::<u128>::empty().to_set() =~= Set::<u128>::empty());
        assert(self.candidates(req, mode) =~= self.collected(req, mode).to_set()
            + self.descent_end(req).ids());
    }

    /// At most one child of a split node contains a region that covers a cell, so
    /// for such a region the descent does not depend on the order in which the
    /// children are looked at.
    pub proof fn lemma_sole_child(self, req: Area)
        requires
            self.shaped(),
            self.subquadrants is Some,
            req.has_extent(),
        ensures
            ({
                let s = self.subquadrants->0;
                &&& s.q0.region.contains(req) ==> self.first_child(req) == Some(0usize)
                &&& s.q1.region.contains(req) ==> self.first_child(req) == Some(1usize)
                &&& s.q2.region.contains(req) ==> self.first_child(req) == Some(2usize)
                &&& s.q3.region.contains(req) ==> self.first_child(req) == Some(3usize)
            }),
    {
        lemma_pow2_unfold(self.depth as nat);
        Area::lemma_quadrants_apart(self.region);
    }

    /// A node holds finitely many identifiers.
    pub proof fn lemma_ids_finite(self)
        ensures
            self.ids().finite(),
        decreases self,
    {
        broadcast use vstd::seq_lib::group_seq_properties;
        match self.subquadrants {
            None => {},
            Some(s) => {
                s.q0.lemma_ids_finite();
                s.q1.lemma_ids_finite();
                s.q2.lemma_ids_finite();
                s.q3.lemma_ids_finite();
            },
        }
    }

    /// Whatever is kept at or below a well-placed node lies within the node's
    /// region.
    pub proof fn lemma_ids_within(self, m: Map<u128, Area>, id: u128)
        requires
            self.shaped(),
            self.placed(m),
            self.ids().contains(id),
        ensures
            m.dom().contains(id),
            self.region.contains(m[id]),
        decreases self,
    {
        if !self.kept().contains(id) {
            let s = self.subquadrants->0;
            lemma_pow2_unfold(self.depth as nat);
            Area::lemma_quadrants_tile(self.region, 0, 0);
            if s.q0.ids().contains(id) {
                s.q0.lemma_ids_within(m, id);
            } else if s.q1.ids().contains(id) {
                s.q1.lemma_ids_within(m, id);
            } else if s.q2.ids().contains(id) {
                s.q2.lemma_ids_within(m, id);
            } else {
                s.q3.lemma_ids_within(m, id);
            }
        }
    }

    /// Placement depends only on the regions of the identifiers that the node holds.
    pub proof fn lemma_placed_agree(self, m1: Map<u128, Area>, m2: Map<u128, Area>)
        requires
            self.placed(m1),
            forall|id: u128| #[trigger]
                self.ids().contains(id) ==> m2.dom().contains(id) && m2[id] == m1[id],
        ensures
            self.placed(m2),
        decreases self,
    {
        assert forall|id: u128| #[trigger] self.kept().contains(id) implies self.keeps_well(
            id,
            m2,
        ) by {
            assert(self.ids().contains(id));
        }
        match self.subquadrants {
            None => {},
            Some(s) => {
                assert forall|id: u128|
                    s.q0.ids().contains(id) || s.q1.ids().contains(id) || s.q2.ids().contains(id)
                        || s.q3.ids().contains(id) implies #[trigger] m2.dom().contains(id)
                    && m2[id] == m1[id] by {
                    assert(self.ids().contains(id));
                }
                s.q0.lemma_placed_agree(m1, m2);
                s.q1.lemma_placed_agree(m1, m2);
                s.q2.lemma_placed_agree(m1, m2);
                s.q3.lemma_placed_agree(m1, m2);
                assert forall|id: u128| #[trigger]
                    s.q0.ids().contains(id) implies self.first_child(m2[id]) == Some(0usize) by {
                    assert(self.ids().contains(id));
                }
                assert forall|id: u128| #[trigger]
                    s.q1.ids().contains(id) implies self.first_child(m2[id]) == Some(1usize) by {
                }
                assert forall|id: u128| #[trigger]
                    s.q2.ids().contains(id) implies self.first_child(m2[id]) == Some(2usize) by {
                }
                assert forall|id: u128| #[trigger]
                    s.q3.ids().contains(id) implies self.first_child(m2[id]) == Some(3usize) by {
                }
            },
        }
    }

    /// A pruned walk visits nothing that the node does not hold.
    pub proof fn lemma_candidates_held(self, req: Area, mode: Traversal)
        ensures
            self.candidates(req, mode).subset_of(self.ids()),
        decreases self,
    {
        match self.subquadrants {
            None => {},
            Some(s) => {
                s.q0.lemma_candidates_held(req, mode);
                s.q1.lemma_candidates_held(req, mode);
                s.q2.lemma_candidates_held(req, mode);
                s.q3.lemma_candidates_held(req, mode);
            },
        }
    }

    /// The pruned walk comes by an identifier below this node exactly when
    /// [`reaches`] says so of the node's square and the identifier's region.
    pub proof fn lemma_candidates_exact(
        self,
        m: Map<u128, Area>,
        req: Area,
        mode: Traversal,
        id: u128,
    )
        requires
            self.shaped(),
            self.placed(m),
            self.ids().contains(id),
        ensures
            self.candidates(req, mode).contains(id) == reaches(
                self.region,
                self.depth as nat,
                req,
                m[id],
                mode,
            ),
        decreases self,
    {
        broadcast use vstd::seq_lib::group_seq_properties;

        match self.subquadrants {
            None => {
                if self.depth > 0 {
                }
            },
            Some(s) => {
                if self.region.contains(req) {
                    s.q0.lemma_candidates_held(req, mode);
                    s.q1.lemma_candidates_held(req, mode);
                    s.q2.lemma_candidates_held(req, mode);
                    s.q3.lemma_candidates_held(req, mode);
                    if self.kept().contains(id) {
                    }
                    if s.q0.ids().contains(id) {
                        s.q0.lemma_candidates_exact(m, req, mode, id);
                    }
                    if s.q1.ids().contains(id) {
                        s.q1.lemma_candidates_exact(m, req, mode, id);
                    }
                    if s.q2.ids().contains(id) {
                        s.q2.lemma_candidates_exact(m, req, mode, id);
                    }
                    if s.q3.ids().contains(id) {
                        s.q3.lemma_candidates_exact(m, req, mode, id);
                    }
                }
            },
        }
    }

    /// A walk pruned for an overlapping query misses nothing that intersects the
    /// query region.
    pub proof fn lemma_candidates_overlapping(self, m: Map<u128, Area>, req: Area, id: u128)
        requires
            self.shaped(),
            self.placed(m),
            self.ids().contains(id),
            req.intersects(m[id]),
        ensures
            self.candidates(req, Traversal::Overlapping).contains(id),
        decreases self,
    {
        match self.subquadrants {
            Some(s) if self.region.contains(req) => {
                lemma_pow2_unfold(self.depth as nat);
                Area::lemma_quadrants_apart(self.region);
                if s.q0.ids().contains(id) {
                    s.q0.lemma_ids_within(m, id);
                    if s.q0.region.contains(req) {
                        s.q0.lemma_candidates_overlapping(m, req, id);
                    }
                } else if s.q1.ids().contains(id) {
                    s.q1.lemma_ids_within(m, id);
                    if s.q1.region.contains(req) {
                        s.q1.lemma_candidates_overlapping(m, req, id);
                    }
                } else if s.q2.ids().contains(id) {
                    s.q2.lemma_ids_within(m, id);
                    if s.q2.region.contains(req) {
                        s.q2.lemma_candidates_overlapping(m, req, id);
                    }
                } else if s.q3.ids().contains(id) {
                    s.q3.lemma_ids_within(m, id);
                    if s.q3.region.contains(req) {
                        s.q3.lemma_candidates_overlapping(m, req, id);
                    }
                }
            },
            _ => {},
        }
    }

    /// A walk pruned for a strict query misses nothing that covers a cell and lies
    /// within the query region.
    pub proof fn lemma_candidates_strict(self, m: Map<u128, Area>, req: Area, id: u128)
        requires
            self.shaped(),
            self.placed(m),
            self.ids().contains(id),
            req.contains(m[id]),
            m[id].has_extent(),
        ensures
            self.candidates(req, Traversal::Strict).contains(id),
        decreases self,
    {
        match self.subquadrants {
            Some(s) if self.region.contains(req) => {
                lemma_pow2_unfold(self.depth as nat);
                Area::lemma_quadrants_apart(self.region);
                if s.q0.ids().contains(id) {
                    s.q0.lemma_ids_within(m, id);
                    if s.q0.region.contains(req) {
                        s.q0.lemma_candidates_strict(m, req, id);
                    }
                } else if s.q1.ids().contains(id) {
                    s.q1.lemma_ids_within(m, id);
                    if s.q1.region.contains(req) {
                        s.q1.lemma_candidates_strict(m, req, id);
                    }
                } else if s.q2.ids().contains(id) {
                    s.q2.lemma_ids_within(m, id);
                    if s.q2.region.contains(req) {
                        s.q2.lemma_candidates_strict(m, req, id);
                    }
                } else if s.q3.ids().contains(id) {
                    s.q3.lemma_ids_within(m, id);
                    if s.q3.region.contains(req) {
                        s.q3.lemma_candidates_strict(m, req, id);
                    }
                }
            },
            _ => {},
        }
    }

    /// A node over `region` that holds nothing and has not been split.
    fn leaf(region: Area, depth: usize) -> (node: QTInner)
        requires
            depth <= 62,
            region.w == pow2(depth as nat),
            region.h == pow2(depth as nat),
            region.right() <= i64::MAX,
            region.bottom() <= i64::MAX,
        ensures
            node.region == region,
            node.depth == depth,
            node.is_pristine(),
            node.shaped(),
            node.distinct(),
            node.ids() == Set::<u128>::empty(),
            forall|m: Map<u128, Area>| #[trigger] node.placed(m),
    {
        QTInner { region, depth, kept_ids: Vec::new(), subquadrants: None }
    }

    /// The root of a tree: a single node anchored at `anchor` whose side is two to
    /// the power of `depth`.
    pub fn new(anchor: (i64, i64), depth: usize) -> (node: QTInner)
        requires
            depth <= 62,
            anchor.0 + pow2(depth as nat) <= i64::MAX,
            anchor.1 + pow2(depth as nat) <= i64::MAX,
        ensures
            node.shaped(),
            node.is_pristine(),
            node.depth == depth,
            node.region.x == anchor.0,
            node.region.y == anchor.1,
            node.region.w == pow2(depth as nat),
            node.region.h == pow2(depth as nat),
    {
        let side: u64 = pow_two(depth as u32);
        QTInner::leaf(Area::new(anchor, (side, side)), depth)
    }

    /// Forgets every identifier and every split.
    pub fn reset(&mut self)
        requires
            old(self).shaped(),
        ensures
            final(self).shaped(),
            final(self).is_pristine(),
            final(self).region == old(self).region,
            final(self).depth == old(self).depth,
    {
        self.kept_ids.clear();
        self.subquadrants = None;
    }

    /// Gives a node that may be bisected its four children.
    fn split(&mut self)
        requires
            old(self).shaped(),
            old(self).depth > 0,
            old(self).subquadrants is None,
        ensures
            final(self).shaped(),
            final(self).distinct(),
            final(self).region == old(self).region,
            final(self).depth == old(self).depth,
            final(self).kept_ids@ == old(self).kept_ids@,
            final(self).ids() == old(self).ids(),
            final(self).subquadrants is Some,
            forall|m: Map<u128, Area>| #[trigger] final(self).placed(m),
    {
        proof {
            lemma_pow2_unfold(self.depth as nat);
        }
        let below: usize = self.depth - 1;
        let q0 = QTInner::leaf(self.region.quadrant(0), below);
        let q1 = QTInner::leaf(self.region.quadrant(1), below);
        let q2 = QTInner::leaf(self.region.quadrant(2), below);
        let q3 = QTInner::leaf(self.region.quadrant(3), below);
        let ghost parts = (q0, q1, q2, q3);
        self.subquadrants = Some(Box::new(Subquadrants { q0, q1, q2, q3 }));
        proof {
            assert forall|m: Map<u128, Area>| #[trigger] self.placed(m) by {
                assert(parts.0.placed(m) && parts.1.placed(m) && parts.2.placed(m)
                    && parts.3.placed(m));
            }
        }
    }

    /// Keeps `id`, which stands for an entry at `req`, at the deepest node whose
    /// region contains `req`: from this node down through the first child that
    /// contains `req`, splitting on the way, until no child contains it or the
    /// node may not be split.
    pub fn insert(&mut self, req: Area, id: u128)
        requires
            old(self).shaped(),
            old(self).region.contains(req),
        ensures
            final(self).shaped(),
            final(self).region == old(self).region,
            final(self).depth == old(self).depth,
            final(self).ids() == old(self).ids().insert(id),
            old(self).distinct() && !old(self).ids().contains(id) ==> final(self).distinct(),
            forall|m: Map<u128, Area>|
                #![trigger old(self).placed(m)]
                #![trigger final(self).placed(m)]
                old(self).placed(m) && m.dom().contains(id) && m[id] == req ==> final(self).placed(m),
        decreases old(self).depth,
    {
        broadcast use vstd::seq_lib::group_seq_properties;

        if self.depth > 0 {
            if self.subquadrants.is_none() {
                self.split();
            }
            let ghost mid = *self;
            let mut below: bool = false;
            match &mut self.subquadrants {
                Some(s) => {
                    if s.q0.region.contains(req) {
                        s.q0.insert(req, id);
                        below = true;
                    } else if s.q1.region.contains(req) {
                        s.q1.insert(req, id);
                        below = true;
                    } else if s.q2.region.contains(req) {
                        s.q2.insert(req, id);
                        below = true;
                    } else if s.q3.region.contains(req) {
                        s.q3.insert(req, id);
                        below = true;
                    }
                },
                None => {},
            }
            if below {
                proof {
                    assert forall|m: Map<u128, Area>|
                        old(self).placed(m) && m.dom().contains(id) && m[id]
                            == req implies #[trigger] self.placed(m) by {
                        assert(mid.placed(m));
                        let a = mid.subquadrants->0;
                        let b = self.subquadrants->0;
                        assert(a.q0.placed(m) && a.q1.placed(m) && a.q2.placed(m) && a.q3.placed(m));
                        assert forall|k: u128| #[trigger] self.kept().contains(k) implies self.keeps_well(
                            k,
                            m,
                        ) by {
                            assert(mid.kept().contains(k));
                        }
                        assert forall|k: u128| #[trigger]
                            b.q0.ids().contains(k) implies self.first_child(m[k]) == Some(0usize) by {
                            assert(k == id || a.q0.ids().contains(k));
                        }
                        assert forall|k: u128| #[trigger]
                            b.q1.ids().contains(k) implies self.first_child(m[k]) == Some(1usize) by {
                            assert(k == id || a.q1.ids().contains(k));
                        }
                        assert forall|k: u128| #[trigger]
                            b.q2.ids().contains(k) implies self.first_child(m[k]) == Some(2usize) by {
                            assert(k == id || a.q2.ids().contains(k));
                        }
                        assert forall|k: u128| #[trigger]
                            b.q3.ids().contains(k) implies self.first_child(m[k]) == Some(3usize) by {
                            assert(k == id || a.q3.ids().contains(k));
                        }
                    }
                }
                return ;
            }
        }
        let ghost before = *self;
        self.kept_ids.push(id);
        proof {
            assert(self.kept() =~= before.kept().insert(id));
            assert forall|m: Map<u128, Area>|
                old(self).placed(m) && m.dom().contains(id) && m[id] == req implies #[trigger] self.placed(
                m,
            ) by {
                assert(before.placed(m));
            }
        }
    }

    /// Takes `id`, which stands for an entry at `req`, out of the node that keeps
    /// it. Only nodes whose region contains `req` are looked at.
    pub fn remove(&mut self, req: Area, id: u128)
        requires
            old(self).shaped(),
            old(self).distinct(),
        ensures
            final(self).shaped(),
            final(self).distinct(),
            final(self).region == old(self).region,
            final(self).depth == old(self).depth,
            final(self).ids().subset_of(old(self).ids()),
            final(self).ids().remove(id) == old(self).ids().remove(id),
            forall|m: Map<u128, Area>|
                #![trigger old(self).placed(m)]
                #![trigger final(self).placed(m)]
                old(self).placed(m) ==> final(self).placed(m),
            forall|m: Map<u128, Area>|
                #![trigger old(self).placed(m)]
                old(self).placed(m) && m.dom().contains(id) && m[id] == req
                    ==> !final(self).ids().contains(id),
        decreases old(self).depth,
    {
        let found = remove_value(&mut self.kept_ids, id);
        if found {
            proof {
                assert(self.ids().remove(id) =~= old(self).ids().remove(id));
            }
            return ;
        }
        let ghost mid = *self;
        proof {
            assert(mid.kept() =~= old(self).kept());
        }
        match &mut self.subquadrants {
            Some(s) => {
                if s.q0.region.contains(req) {
                    s.q0.remove(req, id);
                }
                if s.q1.region.contains(req) {
                    s.q1.remove(req, id);
                }
                if s.q2.region.contains(req) {
                    s.q2.remove(req, id);
                }
                if s.q3.region.contains(req) {
                    s.q3.remove(req, id);
                }
            },
            None => {},
        }
        proof {
            if mid.subquadrants is Some {
                let a = mid.subquadrants->0;
                let b = self.subquadrants->0;
                assert forall|k: u128| k != id implies (b.q0.ids().contains(k) == a.q0.ids().contains(
                    k,
                ) && b.q1.ids().contains(k) == a.q1.ids().contains(k) && b.q2.ids().contains(k)
                    == a.q2.ids().contains(k) && b.q3.ids().contains(k) == a.q3.ids().contains(k)) by {
                    assert(b.q0.ids().remove(id).contains(k) == b.q0.ids().contains(k));
                    assert(b.q1.ids().remove(id).contains(k) == b.q1.ids().contains(k));
                    assert(b.q2.ids().remove(id).contains(k) == b.q2.ids().contains(k));
                    assert(b.q3.ids().remove(id).contains(k) == b.q3.ids().contains(k));
                }
            }
            assert forall|m: Map<u128, Area>| old(self).placed(m) implies #[trigger] self.placed(
                m,
            ) by {
                assert(mid.placed(m));
                if mid.subquadrants is Some {
                    let a = mid.subquadrants->0;
                    assert(a.q0.placed(m) && a.q1.placed(m) && a.q2.placed(m) && a.q3.placed(m));
                }
            }
            assert forall|m: Map<u128, Area>|
                #![trigger old(self).placed(m)]
                old(self).placed(m) && m.dom().contains(id) && m[id] == req implies !self.ids().contains(
                id,
            ) by {
                if mid.subquadrants is Some {
                    let a = mid.subquadrants->0;
                    let b = self.subquadrants->0;
                    assert(a.q0.placed(m) && a.q1.placed(m) && a.q2.placed(m) && a.q3.placed(m));
                    if a.q0.ids().contains(id) {
                        a.q0.lemma_ids_within(m, id);
                    }
                    if a.q1.ids().contains(id) {
                        a.q1.lemma_ids_within(m, id);
                    }
                    if a.q2.ids().contains(id) {
                        a.q2.lemma_ids_within(m, id);
                    }
                    if a.q3.ids().contains(id) {
                        a.q3.lemma_ids_within(m, id);
                    }
                }
            }
        }
    }
}

} // verus!
