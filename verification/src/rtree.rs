use crate::aabb::AABB;
use crate::insertion::insert_node;
use crate::nearest_neighbor::NearestNeighborIterator;
use crate::node::{root_min, ParentNodeData};
use crate::object::{ObjectEq, PointDistance, RTreeObject};
use crate::params::{ParamsError, RTreeParams};
use crate::point::Point;
use crate::selection_mut::{replaced_below, select_mut};
use crate::selection::{
    lemma_select_below, select_from, taken_by, SelectAllFunc, SelectAtPointFunction,
    SelectEqualsFunction, SelectInEnvelopeFuncIntersecting, SelectInEnvelopeFunction,
    SelectionFunction, SelectionIterator,
};
use vstd::multiset::Multiset;
use vstd::prelude::*;

verus! {

/// A walk over all objects of a tree.
pub type RTreeIterator<'a, T> = SelectionIterator<'a, T, SelectAllFunc>;

/// A walk over the objects whose envelope lies in a given one.
pub type LocateInEnvelope<'a, T> = SelectionIterator<'a, T, SelectInEnvelopeFunction>;

/// A walk over the objects whose envelope meets a given one.
pub type LocateInEnvelopeIntersecting<'a, T> = SelectionIterator<
    'a,
    T,
    SelectInEnvelopeFuncIntersecting,
>;

/// A walk over the objects that cover a given point.
pub type LocateAllAtPoint<'a, T> = SelectionIterator<'a, T, SelectAtPointFunction>;

/// An r-tree: a balanced tree of objects, ordered by their envelopes.
///
/// As a value it is the multiset of the objects it stores (its view).
pub struct RTree<T: RTreeObject> {
    pub root: ParentNodeData<T>,
    pub size: usize,
    pub height: usize,
    pub params: RTreeParams,
}

impl<T: RTreeObject> View for RTree<T> {
    type V = Multiset<T>;

    open spec fn view(&self) -> Multiset<T> {
        self.root.items()
    }
}

/// The root of a tree.
pub fn root<T: RTreeObject>(tree: &RTree<T>) -> (r: &ParentNodeData<T>)
    ensures
        *r == tree.root,
{
    &tree.root
}

/// The root of a tree, to change it. The tree is well formed afterwards only
/// if what is put there is.
pub fn root_mut<T: RTreeObject>(tree: &mut RTree<T>) -> (r: &mut ParentNodeData<T>)
    ensures
        *r == old(tree).root,
        final(tree).root == *final(r),
        final(tree).size == old(tree).size,
        final(tree).height == old(tree).height,
        final(tree).params == old(tree).params,
{
    &mut tree.root
}

impl<T: RTreeObject> Default for RTree<T> {
    fn default() -> (r: RTree<T>)
        ensures
            r.wf(),
            r@ == Multiset::<T>::empty(),
            r.size == 0,
            r.params == RTreeParams::default_spec(),
    {
        RTree::new()
    }
}

impl<T: RTreeObject> RTree<T> {
    /// The tree is in shape: its parameters are valid; all leaves are on one
    /// level, `height` below the root; every inner node but the root has
    /// between `min_size` and `max_size` children, the root at most
    /// `max_size` (and at least two where it is not on the lowest level of
    /// inner nodes); every inner node's envelope is the union of its
    /// children's; and `size` is the number of stored objects.
    pub open spec fn wf(&self) -> bool {
        &&& self.params.is_valid()
        &&& self.root.wf_parent(self.height as nat, root_min(self.height as nat), self.params)
        &&& self.size == self.root.items().len()
    }

    /// A new, empty tree with the default parameters.
    pub fn new() -> (r: RTree<T>)
        ensures
            r.wf(),
            r@ == Multiset::<T>::empty(),
            r.size == 0,
            r.params == RTreeParams::default_spec(),
    {
        let params = RTreeParams::default();
        RTree { root: ParentNodeData::new_root(), size: 0, height: 1, params }
    }

    /// A new, empty tree with the given parameters, or the rule that the
    /// parameters break.
    pub fn new_with_params(params: RTreeParams) -> (r: Result<RTree<T>, ParamsError>)
        ensures
            match r {
                Ok(tree) => params.is_valid() && tree.wf() && tree@ == Multiset::<T>::empty()
                    && tree.size == 0 && tree.params == params,
                Err(e) => params.check_spec() == Err::<(), ParamsError>(e),
            },
    {
        match params.check() {
            Ok(_) => Ok(RTree { root: ParentNodeData::new_root(), size: 0, height: 1, params }),
            Err(e) => Err(e),
        }
    }

    /// A tree that holds the given objects, built in one go, with the
    /// default parameters.
    pub fn bulk_load(elements: Vec<T>) -> (r: RTree<T>)
        ensures
            r.wf(),
            r@ == elements@.to_multiset(),
            r.size == elements@.len(),
            r.params == RTreeParams::default_spec(),
            crate::bulk_load::is_load_height(
                r.height as nat,
                elements@.len(),
                r.params.max_size as nat,
            ),
            elements@.len() <= r.params.max_size ==> r.root.children@
                == crate::bulk_load::leaves_of(elements@),
    {
        let params = RTreeParams::default();
        let size = elements.len();
        proof {
            elements@.to_multiset_ensures();
        }
        let built = crate::bulk_load::bulk_load_with_params(elements, &params);
        RTree { root: built.0, size, height: built.1, params }
    }

    /// A tree that holds the given objects, built in one go, with the given
    /// parameters; or the rule that the parameters break.
    pub fn bulk_load_with_params(elements: Vec<T>, params: RTreeParams) -> (r: Result<
        RTree<T>,
        ParamsError,
    >)
        ensures
            match r {
                Ok(tree) => params.is_valid() && tree.wf() && tree@ == elements@.to_multiset()
                    && tree.size == elements@.len() && tree.params == params
                    && crate::bulk_load::is_load_height(
                    tree.height as nat,
                    elements@.len(),
                    params.max_size as nat,
                ) && (elements@.len() <= params.max_size ==> tree.root.children@
                    == crate::bulk_load::leaves_of(elements@)),
                Err(e) => params.check_spec() == Err::<(), ParamsError>(e),
            },
    {
        match params.check() {
            Ok(_) => {
                let size = elements.len();
                proof {
                    elements@.to_multiset_ensures();
                }
                let built = crate::bulk_load::bulk_load_with_params(elements, &params);
                Ok(RTree { root: built.0, size, height: built.1, params })
            },
            Err(e) => Err(e),
        }
    }

    /// The number of objects in the tree.
    pub fn size(&self) -> (n: usize)
        ensures
            n == self.size,
            self.wf() ==> n == self@.len(),
    {
        self.size
    }

    /// Adds an object to the tree. An object that is there already is then
    /// there once more.
    pub fn insert(&mut self, t: T)
        requires
            old(self).wf(),
            old(self).size < usize::MAX,
        ensures
            final(self).wf(),
            final(self)@ == old(self)@.insert(t),
            final(self).size == old(self).size + 1,
            final(self).params == old(self).params,
            final(self).height >= old(self).height,
    {
        let ghost lo = root_min(self.height as nat);
        insert_node(&mut self.root, &mut self.height, t, &self.params, Ghost(lo));
        self.size = self.size + 1;
    }

    /// Removes the first object that a walk steered by `sel` takes, and hands
    /// it out; `None` where the walk takes no object.
    pub fn remove_with_selector<S: SelectionFunction<T>>(&mut self, sel: &S) -> (r: Option<T>)
        requires
            old(self).wf(),
        ensures
            final(self).wf(),
            final(self).params == old(self).params,
            match r {
                None => {
                    &&& forall|t: T| old(self)@.count(t) > 0 ==> !sel.yield_spec(t)
                    &&& final(self)@ == old(self)@
                    &&& final(self).size == old(self).size
                    &&& final(self).height == old(self).height
                },
                Some(x) => {
                    &&& select_from(old(self).root, *sel).len() > 0
                    &&& x == select_from(old(self).root, *sel)[0]
                    &&& sel.yield_spec(x)
                    &&& old(self)@.count(x) > 0
                    &&& final(self)@ == old(self)@.remove(x)
                    &&& final(self).size == old(self).size - 1
                },
            },
    {
        let ghost taken = select_from(self.root, *sel);
        let ghost f = taken_by::<T, S>(*sel);
        proof {
            lemma_select_below(
                self.root,
                *sel,
                self.height as nat,
                root_min(self.height as nat),
                self.params,
            );
            taken.to_multiset_ensures();
        }
        let r = crate::removal::remove(&mut self.root, &mut self.height, sel, &self.params);
        match r {
            None => {
                proof {
                    assert forall|t: T| old(self)@.count(t) > 0 implies !sel.yield_spec(t) by {
                        if sel.yield_spec(t) {
                            assert(old(self)@.filter(f).count(t) > 0);
                            assert(taken.contains(t));
                        }
                    }
                }
                None
            },
            Some(x) => {
                proof {
                    assert(taken.contains(taken[0]));
                    assert(old(self)@.filter(f).count(x) > 0);
                    assert(self@.insert(x).len() == self@.len() + 1);
                }
                self.size = self.size - 1;
                Some(x)
            },
        }
    }

    /// A walk over all objects of the tree. It hands out every stored
    /// object, as often as it is stored: `size` objects in all.
    pub fn iter(&self) -> (r: RTreeIterator<'_, T>)
        requires
            self.wf(),
        ensures
            r.pending() == select_from(self.root, SelectAllFunc),
            r.pending().to_multiset() == self@,
            r.pending().len() == self.size,
    {
        let sel = SelectAllFunc;
        let r = SelectionIterator::new(&self.root, sel);
        proof {
            lemma_select_below(
                self.root,
                sel,
                self.height as nat,
                root_min(self.height as nat),
                self.params,
            );
            assert(self@.filter(taken_by::<T, SelectAllFunc>(sel)) =~= self@);
            r.pending().to_multiset_ensures();
        }
        r
    }

    /// For every object that a walk steered by `sel` takes, in the order of
    /// the walk, a reference through which the object can be changed.
    ///
    /// The tree is afterwards what it was, with the objects that the
    /// references then point to in the places of those that they pointed to.
    /// It stays in shape as long as no object's envelope is changed (see
    /// [`crate::laws::law_changed_objects_keep_shape`]).
    pub fn select_mut<S: SelectionFunction<T>>(&mut self, sel: &S) -> (r: Vec<&mut T>)
        ensures
            r@.len() == select_from(old(self).root, *sel).len(),
            forall|k: int|
                0 <= k < r@.len() ==> *(#[trigger] r@[k]) == select_from(old(self).root, *sel)[k],
            final(self).size == old(self).size,
            final(self).height == old(self).height,
            final(self).params == old(self).params,
            exists|vals: Seq<T>|
                #![trigger vals.len()]
                vals.len() == r@.len() && (forall|k: int|
                    0 <= k < vals.len() ==> #[trigger] vals[k] == *final(r@[k])) && replaced_below(
                    old(self).root,
                    final(self).root,
                    *sel,
                    vals,
                ),
    {
        select_mut(&mut self.root, sel)
    }

    /// For every object of the tree, in the order of a walk through it, a
    /// reference through which the object can be changed: `size` references
    /// in all. See [`RTree::select_mut`].
    pub fn iter_mut(&mut self) -> (r: Vec<&mut T>)
        requires
            old(self).wf(),
        ensures
            r@.len() == old(self).size,
            forall|k: int|
                0 <= k < r@.len() ==> *(#[trigger] r@[k]) == select_from(
                    old(self).root,
                    SelectAllFunc,
                )[k],
            final(self).size == old(self).size,
            final(self).height == old(self).height,
            final(self).params == old(self).params,
            exists|vals: Seq<T>|
                #![trigger vals.len()]
                vals.len() == r@.len() && (forall|k: int|
                    0 <= k < vals.len() ==> #[trigger] vals[k] == *final(r@[k])) && replaced_below(
                    old(self).root,
                    final(self).root,
                    SelectAllFunc,
                    vals,
                ),
    {
        let sel = SelectAllFunc;
        proof {
            lemma_select_below(
                self.root,
                sel,
                self.height as nat,
                root_min(self.height as nat),
                self.params,
            );
            assert(self@.filter(taken_by::<T, SelectAllFunc>(sel)) =~= self@);
            select_from(self.root, sel).to_multiset_ensures();
        }
        self.select_mut(&sel)
    }

    /// References to the objects whose envelope lies in `envelope`, to
    /// change them. See [`RTree::select_mut`].
    pub fn locate_in_envelope_mut(&mut self, envelope: &AABB) -> (r: Vec<&mut T>)
        ensures
            r@.len() == select_from(
                old(self).root,
                SelectInEnvelopeFunction { envelope: *envelope },
            ).len(),
            forall|k: int|
                0 <= k < r@.len() ==> *(#[trigger] r@[k]) == select_from(
                    old(self).root,
                    SelectInEnvelopeFunction { envelope: *envelope },
                )[k],
            final(self).size == old(self).size,
            final(self).height == old(self).height,
            final(self).params == old(self).params,
            exists|vals: Seq<T>|
                #![trigger vals.len()]
                vals.len() == r@.len() && (forall|k: int|
                    0 <= k < vals.len() ==> #[trigger] vals[k] == *final(r@[k])) && replaced_below(
                    old(self).root,
                    final(self).root,
                    SelectInEnvelopeFunction { envelope: *envelope },
                    vals,
                ),
    {
        let sel = SelectInEnvelopeFunction::new(*envelope);
        self.select_mut(&sel)
    }

    /// References to the objects whose envelope meets `envelope`, to change
    /// them. See [`RTree::select_mut`].
    pub fn locate_in_envelope_intersecting_mut(&mut self, envelope: &AABB) -> (r: Vec<&mut T>)
        ensures
            r@.len() == select_from(
                old(self).root,
                SelectInEnvelopeFuncIntersecting { envelope: *envelope },
            ).len(),
            forall|k: int|
                0 <= k < r@.len() ==> *(#[trigger] r@[k]) == select_from(
                    old(self).root,
                    SelectInEnvelopeFuncIntersecting { envelope: *envelope },
                )[k],
            final(self).size == old(self).size,
            final(self).height == old(self).height,
            final(self).params == old(self).params,
            exists|vals: Seq<T>|
                #![trigger vals.len()]
                vals.len() == r@.len() && (forall|k: int|
                    0 <= k < vals.len() ==> #[trigger] vals[k] == *final(r@[k])) && replaced_below(
                    old(self).root,
                    final(self).root,
                    SelectInEnvelopeFuncIntersecting { envelope: *envelope },
                    vals,
                ),
    {
        let sel = SelectInEnvelopeFuncIntersecting::new(*envelope);
        self.select_mut(&sel)
    }

    /// A walk over the objects whose envelope lies in `envelope`: it hands
    /// out exactly those, each as often as it is stored.
    pub fn locate_in_envelope(&self, envelope: &AABB) -> (r: LocateInEnvelope<'_, T>)
        requires
            self.wf(),
        ensures
            r.pending() == select_from(self.root, SelectInEnvelopeFunction { envelope: *envelope }),
            r.pending().to_multiset() == self@.filter(
                |t: T| envelope.contains_envelope_spec(t.envelope_spec()),
            ),
    {
        let sel = SelectInEnvelopeFunction::new(*envelope);
        let r = SelectionIterator::new(&self.root, sel);
        proof {
            lemma_select_below(
                self.root,
                sel,
                self.height as nat,
                root_min(self.height as nat),
                self.params,
            );
            assert(self@.filter(taken_by::<T, SelectInEnvelopeFunction>(sel)) =~= self@.filter(
                |t: T| envelope.contains_envelope_spec(t.envelope_spec()),
            ));
        }
        r
    }

    /// A walk over the objects whose envelope meets `envelope`: it hands out
    /// exactly those, each as often as it is stored.
    pub fn locate_in_envelope_intersecting(&self, envelope: &AABB) -> (r:
        LocateInEnvelopeIntersecting<'_, T>)
        requires
            self.wf(),
        ensures
            r.pending() == select_from(
                self.root,
                SelectInEnvelopeFuncIntersecting { envelope: *envelope },
            ),
            r.pending().to_multiset() == self@.filter(
                |t: T| envelope.intersects_spec(t.envelope_spec()),
            ),
    {
        let sel = SelectInEnvelopeFuncIntersecting::new(*envelope);
        let r = SelectionIterator::new(&self.root, sel);
        proof {
            lemma_select_below(
                self.root,
                sel,
                self.height as nat,
                root_min(self.height as nat),
                self.params,
            );
            assert(self@.filter(taken_by::<T, SelectInEnvelopeFuncIntersecting>(sel))
                =~= self@.filter(|t: T| envelope.intersects_spec(t.envelope_spec())));
        }
        r
    }
}

impl<T: RTreeObject + ObjectEq> RTree<T> {
    /// Removes one object equal to `t` and hands it out; `None` where the
    /// tree holds no such object.
    pub fn remove(&mut self, t: &T) -> (r: Option<T>)
        requires
            old(self).wf(),
        ensures
            final(self).wf(),
            final(self).params == old(self).params,
            match r {
                None => {
                    &&& old(self)@.count(*t) == 0
                    &&& final(self)@ == old(self)@
                    &&& final(self).size == old(self).size
                },
                Some(x) => {
                    &&& x == *t
                    &&& old(self)@.count(*t) > 0
                    &&& final(self)@ == old(self)@.remove(*t)
                    &&& final(self).size == old(self).size - 1
                },
            },
    {
        let removal_function = SelectEqualsFunction::new(t);
        let r = self.remove_with_selector(&removal_function);
        proof {
            if r is None {
                if old(self)@.count(*t) > 0 {
                    assert(!removal_function.yield_spec(*t));
                }
            }
        }
        r
    }

    /// Whether an object equal to `t` is in the tree.
    pub fn contains(&self, t: &T) -> (r: bool)
        requires
            self.wf(),
        ensures
            r == (self@.count(*t) > 0),
    {
        let e = t.envelope();
        let mut found = self.locate_in_envelope(&e);
        let ghost all = found.pending();
        proof {
            all.to_multiset_ensures();
            assert(all.to_multiset().count(*t) == self@.count(*t));
        }
        let ghost mut seen: int = 0;
        loop
            invariant
                0 <= seen <= all.len(),
                found.pending() == all.skip(seen),
                forall|j: int| 0 <= j < seen ==> all[j] != *t,
                all.contains(*t) <==> self@.count(*t) > 0,
            decreases all.len() - seen,
        {
            match found.next() {
                None => {
                    proof {
                        assert(seen == all.len());
                        assert(!all.contains(*t));
                    }
                    return false;
                },
                Some(x) => {
                    proof {
                        assert(all.skip(seen)[0] == all[seen]);
                    }
                    if x.same_object(t) {
                        proof {
                            assert(all.contains(*t));
                        }
                        return true;
                    }
                    proof {
                        assert(all.skip(seen).skip(1) =~= all.skip(seen + 1));
                        seen = seen + 1;
                    }
                },
            }
        }
    }
}

impl<T: PointDistance> RTree<T> {
    /// A walk over the objects that cover `point`: it hands out exactly
    /// those, each as often as it is stored.
    pub fn locate_all_at_point(&self, point: &Point) -> (r: LocateAllAtPoint<'_, T>)
        requires
            self.wf(),
        ensures
            r.pending() == select_from(self.root, SelectAtPointFunction { point: *point }),
            r.pending().to_multiset() == self@.filter(|t: T| t.contains_point_spec(*point)),
    {
        let sel = SelectAtPointFunction::new(*point);
        let r = SelectionIterator::new(&self.root, sel);
        proof {
            lemma_select_below(
                self.root,
                sel,
                self.height as nat,
                root_min(self.height as nat),
                self.params,
            );
            assert(self@.filter(taken_by::<T, SelectAtPointFunction>(sel)) =~= self@.filter(
                |t: T| t.contains_point_spec(*point),
            ));
        }
        r
    }

    /// References to the objects that cover `point`, to change them. See
    /// [`RTree::select_mut`].
    pub fn locate_all_at_point_mut(&mut self, point: &Point) -> (r: Vec<&mut T>)
        ensures
            r@.len() == select_from(old(self).root, SelectAtPointFunction { point: *point }).len(),
            forall|k: int|
                0 <= k < r@.len() ==> *(#[trigger] r@[k]) == select_from(
                    old(self).root,
                    SelectAtPointFunction { point: *point },
                )[k],
            final(self).size == old(self).size,
            final(self).height == old(self).height,
            final(self).params == old(self).params,
            exists|vals: Seq<T>|
                #![trigger vals.len()]
                vals.len() == r@.len() && (forall|k: int|
                    0 <= k < vals.len() ==> #[trigger] vals[k] == *final(r@[k])) && replaced_below(
                    old(self).root,
                    final(self).root,
                    SelectAtPointFunction { point: *point },
                    vals,
                ),
    {
        let sel = SelectAtPointFunction::new(*point);
        self.select_mut(&sel)
    }

    /// A reference to an object that covers `point`, the first that a walk
    /// through the tree meets, to change it; `None` where no object covers
    /// the point. See [`RTree::select_mut`].
    pub fn locate_at_point_mut(&mut self, point: &Point) -> (r: Option<&mut T>)
        ensures
            final(self).size == old(self).size,
            final(self).height == old(self).height,
            final(self).params == old(self).params,
            match r {
                None => select_from(old(self).root, SelectAtPointFunction { point: *point }).len()
                    == 0,
                Some(x) => {
                    &&& select_from(old(self).root, SelectAtPointFunction { point: *point }).len()
                        > 0
                    &&& *x == select_from(old(self).root, SelectAtPointFunction { point: *point })[0]
                    &&& replaced_below(
                        old(self).root,
                        final(self).root,
                        SelectAtPointFunction { point: *point },
                        select_from(old(self).root, SelectAtPointFunction { point: *point }).update(
                            0,
                            *final(x),
                        ),
                    )
                },
            },
    {
        let ghost before = select_from(self.root, SelectAtPointFunction { point: *point });
        let ghost root_fin = final(self).root;
        let mut all = self.locate_all_at_point_mut(point);
        if all.len() == 0 {
            None
        } else {
            let ghost refs = all@;
            let first = all.swap_remove(0);
            proof {
                let vals = choose|vals: Seq<T>|
                    #![trigger vals.len()]
                    vals.len() == refs.len() && (forall|k: int|
                        0 <= k < vals.len() ==> #[trigger] vals[k] == *final(refs[k]))
                        && replaced_below(
                        old(self).root,
                        root_fin,
                        SelectAtPointFunction { point: *point },
                        vals,
                    );
                let rest = all@;
                assert(has_resolved(all));
                assert forall|k: int| 0 <= k < vals.len() implies vals[k] == before.update(
                    0,
                    *final(first),
                )[k] by {
                    if k == 0 {
                    } else if k == refs.len() - 1 {
                        assert(rest[0] == refs[k]);
                        assert(has_resolved(rest[0]));
                    } else {
                        assert(rest[k] == refs[k]);
                        assert(has_resolved(rest[k]));
                    }
                }
                assert(vals =~= before.update(0, *final(first)));
            }
            Some(first)
        }
    }

    /// An object that covers `point`: the first that a walk through the tree
    /// meets; `None` where no object covers it.
    pub fn locate_at_point(&self, point: &Point) -> (r: Option<&T>)
        requires
            self.wf(),
        ensures
            match r {
                Some(x) => select_from(self.root, SelectAtPointFunction { point: *point }).len()
                    > 0 && *x == select_from(self.root, SelectAtPointFunction { point: *point })[0]
                    && self@.count(*x) > 0 && x.contains_point_spec(*point),
                None => forall|t: T| self@.count(t) > 0 ==> !t.contains_point_spec(*point),
            },
    {
        let mut all = self.locate_all_at_point(point);
        let ghost covering = self@.filter(|t: T| t.contains_point_spec(*point));
        let ghost listed = all.pending();
        proof {
            listed.to_multiset_ensures();
        }
        let r = all.next();
        proof {
            match r {
                Some(x) => {
                    assert(listed.contains(listed[0]));
                    assert(covering.count(*x) > 0);
                },
                None => {
                    assert forall|t: T| self@.count(t) > 0 implies !t.contains_point_spec(
                        *point,
                    ) by {
                        if t.contains_point_spec(*point) {
                            assert(covering.count(t) > 0);
                            assert(listed.contains(t));
                        }
                    }
                },
            }
        }
        r
    }

    /// Removes an object that covers `point`, the first that a walk through
    /// the tree meets, and hands it out; `None` where no object covers it.
    pub fn remove_at_point(&mut self, point: &Point) -> (r: Option<T>)
        requires
            old(self).wf(),
        ensures
            final(self).wf(),
            final(self).params == old(self).params,
            match r {
                None => {
                    &&& forall|t: T| old(self)@.count(t) > 0 ==> !t.contains_point_spec(*point)
                    &&& final(self)@ == old(self)@
                    &&& final(self).size == old(self).size
                },
                Some(x) => {
                    &&& select_from(old(self).root, SelectAtPointFunction { point: *point }).len()
                        > 0
                    &&& x == select_from(old(self).root, SelectAtPointFunction { point: *point })[0]
                    &&& x.contains_point_spec(*point)
                    &&& old(self)@.count(x) > 0
                    &&& final(self)@ == old(self)@.remove(x)
                    &&& final(self).size == old(self).size - 1
                },
            },
    {
        let removal_function = SelectAtPointFunction::new(*point);
        let r = self.remove_with_selector(&removal_function);
        proof {
            if r is None {
                assert forall|t: T| old(self)@.count(t) > 0 implies !t.contains_point_spec(
                    *point,
                ) by {
                    assert(!removal_function.yield_spec(t));
                }
            }
        }
        r
    }

    /// The object nearest to `query_point`; `None` where the tree is empty.
    /// Of several objects at the least distance, one is returned.
    pub fn nearest_neighbor(&self, query_point: &Point) -> (r: Option<&T>)
        requires
            self.wf(),
        ensures
            match r {
                None => self@ == Multiset::<T>::empty(),
                Some(x) => {
                    &&& self@.count(*x) > 0
                    &&& forall|y: T|
                        self@.count(y) > 0 ==> x.distance_2_spec(*query_point)
                            <= #[trigger] y.distance_2_spec(*query_point)
                },
            },
    {
        if self.size > 0 {
            let found = crate::nearest_neighbor::nearest_neighbor(
                &self.root,
                *query_point,
                Ghost(self.height as nat),
                Ghost(root_min(self.height as nat)),
                Ghost(self.params),
            );
            match found {
                Some(x) => Some(x),
                None => {
                    let mut all = self.nearest_neighbor_iter(query_point);
                    all.next()
                },
            }
        } else {
            proof {
                assert(self@.len() == 0);
                assert forall|t: T| self@.count(t) == 0 by {
                    assert(self@.count(t) <= self@.len());
                }
                assert(self@ =~= Multiset::<T>::empty());
            }
            None
        }
    }

    /// A search that hands out the objects of the tree one by one, the
    /// nearest to `query_point` first.
    pub fn nearest_neighbor_iter(&self, query_point: &Point) -> (r: NearestNeighborIterator<'_, T>)
        requires
            self.wf(),
        ensures
            r.wf(),
            r.query_point == *query_point,
            r.remaining() == self@,
    {
        NearestNeighborIterator::new(
            &self.root,
            *query_point,
            Ghost(self.height as nat),
            Ghost(root_min(self.height as nat)),
            Ghost(self.params),
        )
    }
}

} // verus!
