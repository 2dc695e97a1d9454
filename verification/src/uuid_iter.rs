use vstd::prelude::*;
use std::collections::HashSet;
use crate::area::Area;
use crate::qtinner::{lemma_concat_to_set, QTInner};
use crate::traversal::Traversal;

verus! {

broadcast use vstd::std_specs::hash::group_hash_axioms;

/// A lazy depth-first walk over the identifiers kept in a tree: a stack of nodes
/// that are still to be expanded, a stack of identifiers that were found and are
/// still to be handed out, and the set of identifiers handed out so far, which
/// keeps an identifier from being handed out twice.
pub struct UuidIter<'a> {
    uuid_stack: Vec<u128>,
    qt_stack: Vec<&'a QTInner>,
    visited: HashSet<u128>,
}

/// Everything kept at or below the nodes of a stack.
spec fn stack_ids(s: Seq<&QTInner>) -> Set<u128>
    decreases s.len(),
{
    if s.len() == 0 {
        Set::empty()
    } else {
        stack_ids(s.drop_last()) + s.last().ids()
    }
}

/// The weights of the nodes of a stack, added up.
spec fn stack_weight(s: Seq<&QTInner>) -> nat
    decreases s.len(),
{
    if s.len() == 0 {
        0
    } else {
        stack_weight(s.drop_last()) + s.last().weight()
    }
}

proof fn lemma_stack_push(s: Seq<&QTInner>, node: &QTInner)
    ensures
        stack_ids(s.push(node)) == stack_ids(s) + node.ids(),
        stack_weight(s.push(node)) == stack_weight(s) + node.weight(),
{
    assert(s.push(node).drop_last() =~= s);
}

proof fn lemma_stack_ids_finite(s: Seq<&QTInner>)
    ensures
        stack_ids(s).finite(),
    decreases s.len(),
{
    if s.len() > 0 {
        lemma_stack_ids_finite(s.drop_last());
        s.last().lemma_ids_finite();
    }
}

proof fn lemma_drop_last_to_set(s: Seq<u128>)
    requires
        s.len() > 0,
    ensures
        s.to_set() == s.drop_last().to_set().insert(s.last()),
{
    broadcast use vstd::seq_lib::group_seq_properties;

    assert(s.to_set() =~= s.drop_last().to_set().insert(s.last()));
}

/// Puts the identifiers of `ids` on top of `stack`, the last one topmost.
fn push_all(stack: &mut Vec<u128>, ids: &Vec<u128>)
    ensures
        final(stack)@ == old(stack)@ + ids@,
{
    let mut i: usize = 0;
    while i < ids.len()
        invariant
            i <= ids.len(),
            stack@ == old(stack)@ + ids@.subrange(0, i as int),
        decreases ids.len() - i,
    {
        stack.push(ids[i]);
        i = i + 1;
    }
}

impl<'a> UuidIter<'a> {
    /// The identifiers that the walk has still to hand out.
    pub closed spec fn pending(&self) -> Set<u128> {
        (self.uuid_stack@.to_set() + stack_ids(self.qt_stack@)).difference(self.visited@)
    }

    /// The node that was put on the stack of nodes first. While a single node
    /// waits, as after `new` and after `query_optimization`, this is the node that
    /// the walk stands at: what is kept at and below it is still to be visited.
    pub closed spec fn stands_at(&self) -> QTInner {
        *self.qt_stack@[0]
    }

    /// How many nodes wait to be expanded.
    pub closed spec fn nodes_waiting(&self) -> nat {
        self.qt_stack@.len()
    }

    /// The identifiers that were found and wait to be handed out or passed over,
    /// the next one last.
    pub closed spec fn found(&self) -> Seq<u128> {
        self.uuid_stack@
    }

    /// The identifiers handed out so far.
    pub closed spec fn yielded(&self) -> Set<u128> {
        self.visited@
    }

    /// Whether the walk is as `new` makes it: it stands at a single node, has
    /// found nothing and has handed out nothing.
    pub open spec fn is_fresh(&self) -> bool {
        &&& self.nodes_waiting() == 1
        &&& self.found() == Seq::<u128>::empty()
        &&& self.yielded() == Set::<u128>::empty()
    }

    /// While a single node waits, what is still to come is what was found and what
    /// is kept at and below that node, but for what was handed out.
    pub proof fn lemma_pending_of_one(&self)
        requires
            self.nodes_waiting() == 1,
        ensures
            self.pending() == (self.found().to_set() + self.stands_at().ids()).difference(
                self.yielded(),
            ),
    {
        assert(self.qt_stack@ =~= Seq::<&QTInner>::empty().push(self.qt_stack@[0]));
        lemma_stack_push(Seq::empty(), self.qt_stack@[0]);
        assert(stack_ids(self.qt_stack@) =~= self.qt_stack@[0].ids());
    }

    /// A bound on the stack operations that are left.
    spec fn work(&self) -> nat {
        self.uuid_stack@.len() + stack_weight(self.qt_stack@)
    }

    /// At any time only finitely many identifiers are left.
    pub proof fn lemma_pending_finite(&self)
        ensures
            self.pending().finite(),
    {
        broadcast use vstd::seq_lib::group_seq_properties;

        lemma_stack_ids_finite(self.qt_stack@);
    }

    /// A walk over everything kept at or below `qt`.
    pub fn new(qt: &'a QTInner) -> (it: UuidIter<'a>)
        ensures
            it.is_fresh(),
            it.stands_at() == *qt,
            it.pending() == qt.ids(),
    {
        let mut qt_stack: Vec<&'a QTInner> = Vec::new();
        qt_stack.push(qt);
        let it = UuidIter { uuid_stack: Vec::new(), qt_stack, visited: HashSet::new() };
        proof {
            it.lemma_pending_of_one();
            assert(it.found() =~= Seq::<u128>::empty());
            assert(it.found().to_set() =~= Set::<u128>::empty());
            assert(it.pending() =~= qt.ids());
        }
        it
    }

    /// Prunes a fresh walk for a query. The walk moves from the node it was made
    /// for down to [`QTInner::descent_end`], the deepest node on its way whose
    /// region still contains `req`, and for an overlapping query takes along what
    /// the nodes that it leaves behind keep, [`QTInner::collected`]. It hands
    /// out nothing yet; what it will hand out is [`QTInner::candidates`].
    pub fn query_optimization(&mut self, req: Area, traversal_method: Traversal)
        requires
            old(self).is_fresh(),
        ensures
            final(self).nodes_waiting() == 1,
            final(self).stands_at() == old(self).stands_at().descent_end(req),
            final(self).found() == old(self).stands_at().collected(req, traversal_method),
            final(self).yielded() == Set::<u128>::empty(),
            final(self).pending() == old(self).stands_at().candidates(req, traversal_method),
    {
        self.descend_recurse_step(req, traversal_method);
        proof {
            let from = old(self).stands_at();
            assert(self.found() =~= from.collected(req, traversal_method));
            self.lemma_pending_of_one();
            from.lemma_candidates_split(req, traversal_method);
            assert(self.pending() =~= from.candidates(req, traversal_method));
        }
    }

    /// One step of the descent: looks at the only node and, where one of its
    /// children contains `req`, goes on from the first such child.
    fn descend_recurse_step(&mut self, req: Area, traversal_method: Traversal)
        requires
            old(self).qt_stack@.len() == 1,
        ensures
            final(self).qt_stack@.len() == 1,
            final(self).visited == old(self).visited,
            *final(self).qt_stack@[0] == old(self).qt_stack@[0].descent_end(req),
            final(self).uuid_stack@ == old(self).uuid_stack@ + old(self).qt_stack@[0].collected(
                req,
                traversal_method,
            ),
        decreases old(self).qt_stack@[0].weight(),
    {
        let qt: &'a QTInner = self.qt_stack[0];
        if qt.region.contains(req) {
            match &qt.subquadrants {
                Some(s) => {
                    let found: Option<&'a QTInner> = if s.q0.region.contains(req) {
                        Some(&s.q0)
                    } else if s.q1.region.contains(req) {
                        Some(&s.q1)
                    } else if s.q2.region.contains(req) {
                        Some(&s.q2)
                    } else if s.q3.region.contains(req) {
                        Some(&s.q3)
                    } else {
                        None
                    };
                    match found {
                        Some(sq) => {
                            if traversal_method == Traversal::Overlapping {
                                push_all(&mut self.uuid_stack, &qt.kept_ids);
                            }
                            self.qt_stack.pop();
                            self.qt_stack.push(sq);
                            let ghost mid = self.uuid_stack@;
                            self.descend_recurse_step(req, traversal_method);
                            proof {
                                let passed = if traversal_method == Traversal::Overlapping {
                                    qt.kept_ids@
                                } else {
                                    Seq::empty()
                                };
                                assert(mid =~= old(self).uuid_stack@ + passed);
                                assert(self.uuid_stack@ =~= old(self).uuid_stack@ + (passed
                                    + sq.collected(req, traversal_method)));
                            }
                            return ;
                        },
                        None => {},
                    }
                },
                None => {},
            }
        }
        assert(self.uuid_stack@ =~= old(self).uuid_stack@ + Seq::<u128>::empty());
    }

    /// The next identifier of the walk, or `None` once every identifier has been
    /// handed out. No identifier is handed out twice. After a `None` the walk is
    /// at its end: no node waits, nothing is found, and what was handed out
    /// stays as it is.
    pub fn next(&mut self) -> (r: Option<u128>)
        ensures
            match r {
                Some(id) => {
                    &&& old(self).pending().contains(id)
                    &&& !old(self).yielded().contains(id)
                    &&& final(self).pending() == old(self).pending().remove(id)
                    &&& final(self).yielded() == old(self).yielded().insert(id)
                },
                None => {
                    &&& old(self).pending() == Set::<u128>::empty()
                    &&& final(self).pending() == Set::<u128>::empty()
                    &&& final(self).yielded() == old(self).yielded()
                    &&& final(self).nodes_waiting() == 0
                    &&& final(self).found() == Seq::<u128>::empty()
                },
            },
    {
        loop
            invariant
                self.pending() == old(self).pending(),
                self.visited@ == old(self).visited@,
            decreases self.work(),
        {
            let ghost before = *self;
            match self.uuid_stack.pop() {
                Some(id) => {
                    proof {
                        lemma_drop_last_to_set(before.uuid_stack@);
                    }
                    if self.visited.insert(id) {
                        return Some(id);
                    }
                    assert(self.visited@ =~= before.visited@);
                },
                None => {
                    match self.qt_stack.pop() {
                        Some(qt) => {
                            let ghost rest = self.qt_stack@;
                            push_all(&mut self.uuid_stack, &qt.kept_ids);
                            match &qt.subquadrants {
                                Some(s) => {
                                    self.qt_stack.push(&s.q0);
                                    self.qt_stack.push(&s.q1);
                                    self.qt_stack.push(&s.q2);
                                    self.qt_stack.push(&s.q3);
                                    proof {
                                        lemma_stack_push(rest, &s.q0);
                                        lemma_stack_push(rest.push(&s.q0), &s.q1);
                                        lemma_stack_push(rest.push(&s.q0).push(&s.q1), &s.q2);
                                        lemma_stack_push(
                                            rest.push(&s.q0).push(&s.q1).push(&s.q2),
                                            &s.q3,
                                        );
                                    }
                                },
                                None => {},
                            }
                            proof {
                                lemma_concat_to_set(before.uuid_stack@, qt.kept_ids@);
                            }
                        },
                        None => {
                            assert(self.found() =~= Seq::<u128>::empty());
                            return None;
                        },
                    }
                },
            }
        }
    }

    /// Nothing is known beforehand of how many identifiers are left.
    pub fn size_hint(&self) -> (r: (usize, Option<usize>))
        ensures
            r == (0usize, None::<usize>),
    {
        (0, None)
    }
}

} // verus!
