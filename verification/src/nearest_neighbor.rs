use crate::aabb::lemma_distance_monotone;
use crate::heap::{heap_pop, heap_push, is_heap};
use crate::node::{
    lemma_envelope_covers, lemma_items_parent, lemma_weight_parent, node_weight, nodes_items,
    nodes_weight, ParentNodeData, RTreeNode,
};
use crate::object::PointDistance;
use crate::params::RTreeParams;
use crate::point::Point;
use crate::selection::referents;
use crate::seq_sum::{
    lemma_sum_multiset_member, lemma_sums_insert, lemma_sums_remove, sum_multiset, sum_nat,
};
use vstd::multiset::Multiset;
use vstd::prelude::*;

verus! {

/// What the search still has to look at: a subtree, the distance it was
/// queued with, and whether that is the exact distance of a stored object.
pub open spec fn entry_node<'a, T: PointDistance>(e: (i128, (&'a RTreeNode<T>, bool))) -> RTreeNode<
    T,
> {
    *(e.1).0
}

/// The objects that an entry of the queue stands for.
pub open spec fn entry_items<'a, T: PointDistance>() -> spec_fn(
    (i128, (&'a RTreeNode<T>, bool)),
) -> Multiset<T> {
    |e: (i128, (&'a RTreeNode<T>, bool))| entry_node(e).items()
}

/// How many steps of the search an entry of the queue can take up.
pub open spec fn entry_weight<'a, T: PointDistance>() -> spec_fn(
    (i128, (&'a RTreeNode<T>, bool)),
) -> nat {
    |e: (i128, (&'a RTreeNode<T>, bool))|
        if (e.1).1 {
            1nat
        } else {
            node_weight(entry_node(e))
        }
}

/// An entry is in order: its subtree is well formed, and its distance is
/// the exact distance of the object in its leaf, or else the distance of
/// its subtree's envelope.
pub open spec fn entry_ok<'a, T: PointDistance>(
    e: (i128, (&'a RTreeNode<T>, bool)),
    q: Point,
    params: RTreeParams,
) -> bool {
    &&& exists|h: nat| entry_node(e).wf_at(h, params)
    &&& if (e.1).1 {
        entry_node(e) is Leaf && e.0 == entry_node(e)->Leaf_0.distance_2_spec(q)
    } else {
        e.0 == entry_node(e).envelope_spec().distance_2_spec(q)
    }
}

/// No object that an entry stands for is nearer than the entry's distance.
pub proof fn lemma_entry_bound<'a, T: PointDistance>(
    e: (i128, (&'a RTreeNode<T>, bool)),
    q: Point,
    params: RTreeParams,
    y: T,
)
    requires
        entry_ok(e, q, params),
        entry_node(e).items().count(y) > 0,
    ensures
        e.0 <= y.distance_2_spec(q),
{
    let h = choose|h: nat| entry_node(e).wf_at(h, params);
    lemma_envelope_covers(entry_node(e), h, params, y);
    lemma_distance_monotone(entry_node(e).envelope_spec(), y.envelope_spec(), q);
    y.lemma_distance_bound(q);
}

/// The search for the objects of a tree in the order of their distance from
/// a point: a queue of subtrees, the nearest first.
pub struct NearestNeighborIterator<'a, T: PointDistance> {
    pub queue: Vec<(i128, (&'a RTreeNode<T>, bool))>,
    pub query_point: Point,
    pub params: Ghost<RTreeParams>,
}

impl<'a, T: PointDistance> NearestNeighborIterator<'a, T> {
    /// The queue is a heap of entries that are in order.
    pub open spec fn wf(&self) -> bool {
        &&& is_heap(self.queue@)
        &&& forall|i: int|
            0 <= i < self.queue@.len() ==> entry_ok(
                #[trigger] self.queue@[i],
                self.query_point,
                self.params@,
            )
    }

    /// The objects that the search has not handed out yet.
    pub open spec fn remaining(&self) -> Multiset<T> {
        sum_multiset(self.queue@, entry_items::<T>())
    }

    /// How many steps the search can still take.
    pub open spec fn steps(&self) -> nat {
        sum_nat(self.queue@, entry_weight::<T>())
    }

    /// Queues the children of `p`, each with the distance of its envelope.
    fn extend(&mut self, p: &'a ParentNodeData<T>, Ghost(h): Ghost<nat>, Ghost(lo): Ghost<nat>)
        requires
            old(self).wf(),
            p.wf_parent(h, lo, old(self).params@),
        ensures
            final(self).wf(),
            final(self).query_point == old(self).query_point,
            final(self).params == old(self).params,
            final(self).remaining() == old(self).remaining().add(p.items()),
            final(self).steps() == old(self).steps() + nodes_weight(p.children@),
    {
        let mut i: usize = 0;
        proof {
            assert(self.remaining() =~= old(self).remaining().add(
                nodes_items(p.children@.take(0)),
            ));
        }
        while i < p.children.len()
            invariant
                i <= p.children@.len(),
                self.wf(),
                p.wf_parent(h, lo, self.params@),
                self.query_point == old(self).query_point,
                self.params == old(self).params,
                self.remaining() == old(self).remaining().add(
                    nodes_items(p.children@.take(i as int)),
                ),
                self.steps() == old(self).steps() + nodes_weight(p.children@.take(i as int)),
            decreases p.children@.len() - i,
        {
            let child = &p.children[i];
            let e = child.envelope();
            let d = e.min_distance_2_to_point(&self.query_point);
            let entry = (d, (child, false));
            let ghost before = self.queue@;
            heap_push(&mut self.queue, entry);
            proof {
                lemma_sums_insert(
                    before,
                    self.queue@,
                    entry,
                    entry_items::<T>(),
                    entry_weight::<T>(),
                );
                assert(p.children@.take(i + 1).drop_last() =~= p.children@.take(i as int));
                assert(self.remaining() =~= old(self).remaining().add(
                    nodes_items(p.children@.take(i + 1)),
                ));
                assert(entry_node(entry).wf_at((h - 1) as nat, self.params@));
                assert(entry_ok(entry, self.query_point, self.params@));
                assert forall|k: int| 0 <= k < self.queue@.len() implies entry_ok(
                    #[trigger] self.queue@[k],
                    self.query_point,
                    self.params@,
                ) by {
                    before.to_multiset_ensures();
                    let j = crate::sort::lemma_same_elements_index(
                        self.queue@,
                        before.push(entry),
                        k,
                    );
                    if j < before.len() {
                        assert(before.push(entry)[j] == before[j]);
                        assert(entry_ok(before[j], self.query_point, self.params@));
                    }
                }
            }
            i += 1;
        }
        proof {
            assert(p.children@.take(i as int) =~= p.children@);
        }
    }

    /// The search through the tree below `root`, from the point `query_point`.
    pub(crate) fn new(
        root: &'a ParentNodeData<T>,
        query_point: Point,
        Ghost(h): Ghost<nat>,
        Ghost(lo): Ghost<nat>,
        Ghost(params): Ghost<RTreeParams>,
    ) -> (r: Self)
        requires
            root.wf_parent(h, lo, params),
        ensures
            r.wf(),
            r.query_point == query_point,
            r.params@ == params,
            r.remaining() == root.items(),
    {
        let mut r = NearestNeighborIterator { queue: Vec::new(), query_point, params: Ghost(params) };
        r.extend(root, Ghost(h), Ghost(lo));
        proof {
            assert(r.remaining() =~= root.items());
        }
        r
    }

    /// Hands out the nearest of the objects that the search has not handed
    /// out yet; `None` when none is left.
    pub fn next(&mut self) -> (r: Option<&'a T>)
        requires
            old(self).wf(),
        ensures
            final(self).wf(),
            final(self).query_point == old(self).query_point,
            final(self).params == old(self).params,
            match r {
                None => old(self).remaining() == Multiset::<T>::empty() && final(self).remaining() == Multiset::<T>::empty(),
                Some(x) => {
                    &&& old(self).remaining().count(*x) > 0
                    &&& final(self).remaining() == old(self).remaining().remove(*x)
                    &&& forall|y: T|
                        old(self).remaining().count(y) > 0 ==> x.distance_2_spec(
                            old(self).query_point,
                        ) <= #[trigger] y.distance_2_spec(old(self).query_point)
                },
            },
    {
        loop
            invariant
                self.wf(),
                self.query_point == old(self).query_point,
                self.params == old(self).params,
                self.remaining() == old(self).remaining(),
            decreases self.steps(),
        {
            let ghost before = self.queue@;
            let ghost q = self.query_point;
            let popped = heap_pop(&mut self.queue);
            match popped {
                None => {
                    return None;
                },
                Some(entry) => {
                    proof {
                        before.to_multiset_ensures();
                        assert(before.contains(entry));
                        let at = choose|i: int| 0 <= i < before.len() && before[i] == entry;
                        assert(entry_ok(before[at], q, self.params@));
                        lemma_sums_remove(
                            before,
                            self.queue@,
                            entry,
                            entry_items::<T>(),
                            entry_weight::<T>(),
                        );
                        assert forall|k: int| 0 <= k < self.queue@.len() implies entry_ok(
                            #[trigger] self.queue@[k],
                            q,
                            self.params@,
                        ) by {
                            self.queue@.to_multiset_ensures();
                            assert(self.queue@.contains(self.queue@[k]));
                            assert(self.queue@.to_multiset().count(self.queue@[k]) > 0);
                            assert(before.to_multiset().count(self.queue@[k]) > 0);
                            assert(before.contains(self.queue@[k]));
                        }
                    }
                    let node: &'a RTreeNode<T> = (entry.1).0;
                    let exact = (entry.1).1;
                    match node {
                        RTreeNode::Leaf(t) => {
                            if exact {
                                proof {
                                    assert(self.remaining().add(entry_node(entry).items()) == old(self).remaining());
                                    assert(self.remaining() =~= old(self).remaining().remove(*t));
                                    assert forall|y: T|
                                        old(self).remaining().count(y)
                                            > 0 implies t.distance_2_spec(q)
                                        <= #[trigger] y.distance_2_spec(q) by {
                                        let i = lemma_sum_multiset_member(
                                            before,
                                            entry_items::<T>(),
                                            y,
                                        );
                                        lemma_entry_bound(before[i], q, self.params@, y);
                                    }
                                }
                                return Some(t);
                            }
                            let d = t.distance_2(&self.query_point);
                            let again = (d, (node, true));
                            let ghost mid = self.queue@;
                            heap_push(&mut self.queue, again);
                            proof {
                                lemma_sums_insert(
                                    mid,
                                    self.queue@,
                                    again,
                                    entry_items::<T>(),
                                    entry_weight::<T>(),
                                );
                                assert(entry_ok(again, q, self.params@)) by {
                                    let h = choose|h: nat| entry_node(entry).wf_at(h, self.params@);
                                    assert(entry_node(again).wf_at(h, self.params@));
                                }
                                assert forall|k: int| 0 <= k < self.queue@.len() implies entry_ok(
                                    #[trigger] self.queue@[k],
                                    q,
                                    self.params@,
                                ) by {
                                    mid.to_multiset_ensures();
                                    let j = crate::sort::lemma_same_elements_index(
                                        self.queue@,
                                        mid.push(again),
                                        k,
                                    );
                                    if j < mid.len() {
                                        assert(mid.push(again)[j] == mid[j]);
                                    }
                                }
                            }
                        },
                        RTreeNode::Parent(p) => {
                            let ghost h = choose|h: nat| entry_node(entry).wf_at(h, self.params@);
                            proof {
                                lemma_items_parent(*p);
                                lemma_weight_parent(*p);
                            }
                            self.extend(p, Ghost(h), Ghost(self.params@.min_size as nat));
                        },
                    }
                },
            }
        }
    }

    /// Hands out all objects that the search has not handed out yet, the
    /// nearest first.
    pub fn collect(self) -> (r: Vec<&'a T>)
        requires
            self.wf(),
        ensures
            referents(r@).to_multiset() == self.remaining(),
            forall|i: int, j: int|
                0 <= i <= j < r@.len() ==> r@[i].distance_2_spec(self.query_point)
                    <= r@[j].distance_2_spec(self.query_point),
    {
        let mut it = self;
        let mut out: Vec<&'a T> = Vec::new();
        let ghost q = self.query_point;
        proof {
            crate::sort::lemma_empty_to_multiset(referents(out@));
            assert(referents(out@).to_multiset().add(it.remaining()) =~= self.remaining());
        }
        loop
            invariant
                it.wf(),
                it.query_point == q,
                q == self.query_point,
                referents(out@).to_multiset().add(it.remaining()) == self.remaining(),
                forall|i: int, j: int|
                    0 <= i <= j < out@.len() ==> out@[i].distance_2_spec(q)
                        <= out@[j].distance_2_spec(q),
                forall|i: int, y: T|
                    0 <= i < out@.len() && it.remaining().count(y) > 0 ==> (
                    #[trigger] out@[i]).distance_2_spec(q) <= #[trigger] y.distance_2_spec(q),
            decreases it.remaining().len(),
        {
            let ghost left = it.remaining();
            let ghost so_far = out@;
            match it.next() {
                None => {
                    proof {
                        assert(referents(out@).to_multiset() =~= self.remaining());
                    }
                    return out;
                },
                Some(x) => {
                    out.push(x);
                    proof {
                        referents(so_far).to_multiset_ensures();
                        assert(referents(out@) =~= referents(so_far).push(*x));
                        assert(referents(out@).to_multiset().add(it.remaining())
                            =~= referents(so_far).to_multiset().add(left));
                        assert(left.len() == it.remaining().insert(*x).len()) by {
                            assert(it.remaining().insert(*x) =~= left);
                        }
                    }
                },
            }
        }
    }
}

/// The object of the tree below `root` that is nearest to `query_point`;
/// `None` where the tree is empty.
pub(crate) fn nearest_neighbor<'a, T: PointDistance>(
    root: &'a ParentNodeData<T>,
    query_point: Point,
    Ghost(h): Ghost<nat>,
    Ghost(lo): Ghost<nat>,
    Ghost(params): Ghost<RTreeParams>,
) -> (r: Option<&'a T>)
    requires
        root.wf_parent(h, lo, params),
    ensures
        match r {
            None => root.items() == Multiset::<T>::empty(),
            Some(x) => {
                &&& root.items().count(*x) > 0
                &&& forall|y: T|
                    root.items().count(y) > 0 ==> x.distance_2_spec(query_point)
                        <= #[trigger] y.distance_2_spec(query_point)
            },
        },
{
    let mut search = NearestNeighborIterator::new(root, query_point, Ghost(h), Ghost(lo), Ghost(params));
    search.next()
}

} // verus!
