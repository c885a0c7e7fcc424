use crate::node::root_min;
use crate::object::RTreeObject;
use crate::rtree::RTree;
use crate::selection::{select_from, SelectionFunction};
use crate::selection_mut::{lemma_replaced_below_keeps_shape, replaced_below};
use vstd::multiset::Multiset;
use vstd::prelude::*;

verus! {

/// What a tree holds after the objects of `s` were inserted one after the
/// other into a tree that held `m`.
pub open spec fn insert_all<T>(m: Multiset<T>, s: Seq<T>) -> Multiset<T>
    decreases s.len(),
{
    if s.len() == 0 {
        m
    } else {
        insert_all(m, s.drop_last()).insert(s.last())
    }
}

/// An object that was inserted is in the tree: of the tree `after` that
/// `insert` leaves when it is given `x`, `contains` says that it holds `x`.
pub proof fn law_contains_after_insert<T: RTreeObject>(before: RTree<T>, after: RTree<T>, x: T)
    requires
        after@ == before@.insert(x),
    ensures
        after@.count(x) > 0,
{
}

/// Inserting an object and then removing it undoes the insertion. Where
/// `insert` takes the tree from `before` to `between`, `remove` finds the
/// object in `between`; and where it takes the tree on to `after`, that tree
/// holds what `before` held, and is as large.
pub proof fn law_remove_undoes_insert<T: RTreeObject>(
    before: RTree<T>,
    between: RTree<T>,
    after: RTree<T>,
    x: T,
)
    requires
        between@ == before@.insert(x),
        between.size == before.size + 1,
        after@ == between@.remove(x),
        after.size == between.size - 1,
    ensures
        between@.count(x) > 0,
        after@ == before@,
        after.size == before.size,
{
    assert(before@.insert(x).remove(x) =~= before@);
}

/// Loading objects in one go gives a tree that holds the same objects as
/// inserting them one after the other into an empty tree.
pub proof fn law_bulk_load_equivalence<T: RTreeObject>(elements: Seq<T>)
    ensures
        insert_all(Multiset::<T>::empty(), elements) == elements.to_multiset(),
    decreases elements.len(),
{
    if elements.len() == 0 {
        crate::sort::lemma_empty_to_multiset(elements);
    } else {
        law_bulk_load_equivalence(elements.drop_last());
        elements.drop_last().to_multiset_ensures();
        assert(elements.drop_last().push(elements.last()) =~= elements);
    }
}

/// Changing objects through the references of `select_mut` and its kin
/// leaves the tree in shape as long as no object's envelope is changed; the
/// tree then holds what it held, with the changed objects for those that the
/// references were handed out for.
pub proof fn law_changed_objects_keep_shape<T: RTreeObject, S: SelectionFunction<T>>(
    before: RTree<T>,
    after: RTree<T>,
    sel: S,
    vals: Seq<T>,
)
    requires
        before.wf(),
        replaced_below(before.root, after.root, sel, vals),
        after.size == before.size,
        after.height == before.height,
        after.params == before.params,
        forall|k: int|
            0 <= k < vals.len() ==> (#[trigger] vals[k]).envelope_spec() == select_from(
                before.root,
                sel,
            )[k].envelope_spec(),
    ensures
        after.wf(),
        after@.add(select_from(before.root, sel).to_multiset()) == before@.add(vals.to_multiset()),
{
    lemma_replaced_below_keeps_shape(
        before.root,
        after.root,
        sel,
        vals,
        before.height as nat,
        root_min(before.height as nat),
        before.params,
    );
}

} // verus!
