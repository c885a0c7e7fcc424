use crate::node::{
    all_wf, lemma_items_parent, lemma_weight_front, lemma_weight_parent, nodes_envelope,
    nodes_items, nodes_weight, ParentNodeData, RTreeNode,
};
use crate::object::RTreeObject;
use crate::params::RTreeParams;
use crate::sort::lemma_empty_to_multiset;
use vstd::seq_lib::lemma_multiset_commutative;
use crate::selection::{
    lemma_select_parent, lemma_selection_front, nodes_selection, select_from, select_in,
    SelectionFunction,
};
use vstd::prelude::*;

verus! {

/// The part of `vals` that belongs to the node at place `i` of `row`: as many
/// objects as the walk takes from that node, after those that belong to the
/// nodes before it.
pub open spec fn part_of<T: RTreeObject, S: SelectionFunction<T>>(
    row: Seq<RTreeNode<T>>,
    sel: S,
    vals: Seq<T>,
    i: int,
) -> Seq<T> {
    vals.subrange(
        nodes_selection(row.take(i), sel).len() as int,
        nodes_selection(row.take(i + 1), sel).len() as int,
    )
}

/// The subtree `new` is the subtree `old` with the objects that a walk
/// steered by `sel` takes replaced, in the order of the walk, by the objects
/// of `vals`; everything else is as it was.
#[verifier::opaque]
pub open spec fn replaced<T: RTreeObject, S: SelectionFunction<T>>(
    old: RTreeNode<T>,
    new: RTreeNode<T>,
    sel: S,
    vals: Seq<T>,
) -> bool
    decreases old,
{
    match old {
        RTreeNode::Leaf(t) => new is Leaf && if sel.yield_spec(t) {
            vals == seq![new->Leaf_0]
        } else {
            vals.len() == 0 && new->Leaf_0 == t
        },
        RTreeNode::Parent(p) => new is Parent && new->Parent_0.envelope == p.envelope && if
            sel.descend_spec(p.envelope) {
            &&& new->Parent_0.children@.len() == p.children@.len()
            &&& vals.len() == nodes_selection(p.children@, sel).len()
            &&& forall|i: int|
                0 <= i < p.children@.len() ==> replaced(
                    p.children@[i],
                    new->Parent_0.children@[i],
                    sel,
                    #[trigger] part_of(p.children@, sel, vals, i),
                )
        } else {
            vals.len() == 0 && new->Parent_0.children@ == p.children@
        },
    }
}

/// The nodes of `new` are the nodes of `old` with the taken objects replaced
/// by those of `vals`: each node by its part of them.
pub open spec fn replaced_row<T: RTreeObject, S: SelectionFunction<T>>(
    old: Seq<RTreeNode<T>>,
    new: Seq<RTreeNode<T>>,
    sel: S,
    vals: Seq<T>,
) -> bool {
    &&& new.len() == old.len()
    &&& vals.len() == nodes_selection(old, sel).len()
    &&& forall|i: int|
        0 <= i < old.len() ==> replaced(old[i], new[i], sel, #[trigger] part_of(old, sel, vals, i))
}

/// The tree below `new` is the tree below `old` with the taken objects
/// replaced by those of `vals`.
pub open spec fn replaced_below<T: RTreeObject, S: SelectionFunction<T>>(
    old: ParentNodeData<T>,
    new: ParentNodeData<T>,
    sel: S,
    vals: Seq<T>,
) -> bool {
    &&& new.envelope == old.envelope
    &&& if sel.descend_spec(old.envelope) {
        replaced_row(old.children@, new.children@, sel, vals)
    } else {
        vals.len() == 0 && new.children@ == old.children@
    }
}

/// As many objects go in as the walk takes.
pub proof fn lemma_replaced_len<T: RTreeObject, S: SelectionFunction<T>>(
    old: RTreeNode<T>,
    new: RTreeNode<T>,
    sel: S,
    vals: Seq<T>,
)
    requires
        replaced(old, new, sel, vals),
    ensures
        vals.len() == select_in(old, sel).len(),
{
    reveal(replaced);
    match old {
        RTreeNode::Leaf(t) => {},
        RTreeNode::Parent(p) => {
            lemma_select_parent(p, sel);
        },
    }
}

/// A leaf that the walk takes is replaced by any leaf, which then is the
/// one object that goes in.
pub proof fn lemma_replaced_leaf<T: RTreeObject, S: SelectionFunction<T>>(t: T, u: T, sel: S)
    ensures
        sel.yield_spec(t) ==> replaced(RTreeNode::Leaf(t), RTreeNode::Leaf(u), sel, seq![u]),
        !sel.yield_spec(t) ==> replaced(
            RTreeNode::Leaf(t),
            RTreeNode::Leaf(t),
            sel,
            Seq::<T>::empty(),
        ),
{
    reveal(replaced);
}

/// An inner node is replaced where its children are, or where the walk
/// passes it by and it stays as it is.
pub proof fn lemma_replaced_parent<T: RTreeObject, S: SelectionFunction<T>>(
    p: ParentNodeData<T>,
    q: ParentNodeData<T>,
    sel: S,
    vals: Seq<T>,
)
    requires
        q.envelope == p.envelope,
        if sel.descend_spec(p.envelope) {
            replaced_row(p.children@, q.children@, sel, vals)
        } else {
            vals.len() == 0 && q.children@ == p.children@
        },
    ensures
        replaced(RTreeNode::Parent(p), RTreeNode::Parent(q), sel, vals),
{
    reveal(replaced);
}

/// What is taken from the first nodes of a row: from the first node, and
/// from as many nodes after it.
proof fn lemma_prefix_front<T: RTreeObject, S: SelectionFunction<T>>(
    s: Seq<RTreeNode<T>>,
    sel: S,
    i: int,
)
    requires
        1 <= i <= s.len(),
    ensures
        nodes_selection(s.take(i), sel).len() == select_in(s[0], sel).len() + nodes_selection(
            s.skip(1).take(i - 1),
            sel,
        ).len(),
{
    lemma_selection_front(s.take(i), sel);
    assert(s.take(i)[0] == s[0]);
    assert(s.take(i).skip(1) =~= s.skip(1).take(i - 1));
}

/// A row is replaced where its first node and the rest of it are.
pub proof fn lemma_replaced_row_front<T: RTreeObject, S: SelectionFunction<T>>(
    old: Seq<RTreeNode<T>>,
    new: Seq<RTreeNode<T>>,
    sel: S,
    head: Seq<T>,
    tail: Seq<T>,
)
    requires
        old.len() > 0,
        new.len() == old.len(),
        replaced(old[0], new[0], sel, head),
        replaced_row(old.skip(1), new.skip(1), sel, tail),
    ensures
        replaced_row(old, new, sel, head + tail),
{
    let vals = head + tail;
    let rest = old.skip(1);
    lemma_replaced_len(old[0], new[0], sel, head);
    lemma_selection_front(old, sel);
    assert(vals.len() == nodes_selection(old, sel).len());
    assert forall|i: int| 0 <= i < old.len() implies replaced(
        old[i],
        new[i],
        sel,
        #[trigger] part_of(old, sel, vals, i),
    ) by {
        lemma_prefix_front(old, sel, i + 1);
        if i == 0 {
            assert(old.take(0) =~= Seq::<RTreeNode<T>>::empty());
            assert(rest.take(0) =~= Seq::<RTreeNode<T>>::empty());
            assert(part_of(old, sel, vals, 0) =~= head);
        } else {
            lemma_prefix_front(old, sel, i);
            assert(rest[i - 1] == old[i]);
            assert(new.skip(1)[i - 1] == new[i]);
            assert(replaced(rest[i - 1], new.skip(1)[i - 1], sel, part_of(rest, sel, tail, i - 1)));
            lemma_prefix_len(rest, sel, i - 1);
            lemma_prefix_len(rest, sel, i);
            assert(part_of(old, sel, vals, i) =~= part_of(rest, sel, tail, i - 1));
        }
    }
}

/// What is taken from a part of a row at its start is no more than what is
/// taken from the row, and grows with the part.
pub proof fn lemma_prefix_len<T: RTreeObject, S: SelectionFunction<T>>(
    s: Seq<RTreeNode<T>>,
    sel: S,
    i: int,
)
    requires
        0 <= i <= s.len(),
    ensures
        nodes_selection(s.take(i), sel).len() <= nodes_selection(s, sel).len(),
        i < s.len() ==> nodes_selection(s.take(i), sel).len() <= nodes_selection(
            s.take(i + 1),
            sel,
        ).len(),
    decreases s.len() - i,
{
    if i < s.len() {
        lemma_prefix_len(s, sel, i + 1);
        assert(s.take(i + 1).drop_last() =~= s.take(i));
    } else {
        assert(s.take(i) =~= s);
    }
}

/// A row without its last node is replaced where the whole row is.
proof fn lemma_replaced_row_back<T: RTreeObject, S: SelectionFunction<T>>(
    old: Seq<RTreeNode<T>>,
    new: Seq<RTreeNode<T>>,
    sel: S,
    vals: Seq<T>,
)
    requires
        old.len() > 0,
        replaced_row(old, new, sel, vals),
    ensures
        nodes_selection(old.drop_last(), sel).len() <= vals.len(),
        replaced_row(
            old.drop_last(),
            new.drop_last(),
            sel,
            vals.take(nodes_selection(old.drop_last(), sel).len() as int),
        ),
        replaced(
            old.last(),
            new.last(),
            sel,
            vals.skip(nodes_selection(old.drop_last(), sel).len() as int),
        ),
{
    let front = old.drop_last();
    let cut = nodes_selection(front, sel).len() as int;
    assert(old.take(old.len() - 1) =~= front);
    assert(old.take(old.len() as int) =~= old);
    assert(part_of(old, sel, vals, old.len() - 1) =~= vals.skip(cut));
    assert(replaced(
        old[old.len() - 1],
        new[old.len() - 1],
        sel,
        part_of(old, sel, vals, old.len() - 1),
    ));
    assert forall|i: int| 0 <= i < front.len() implies replaced(
        front[i],
        new.drop_last()[i],
        sel,
        #[trigger] part_of(front, sel, vals.take(cut), i),
    ) by {
        assert(front.take(i) =~= old.take(i));
        assert(front.take(i + 1) =~= old.take(i + 1));
        lemma_prefix_len(front, sel, i);
        lemma_prefix_len(front, sel, i + 1);
        assert(part_of(front, sel, vals.take(cut), i) =~= part_of(old, sel, vals, i));
        assert(replaced(old[i], new[i], sel, part_of(old, sel, vals, i)));
    }
}

/// Objects that go in with the envelopes of those that they replace leave a
/// well formed subtree well formed, under the same envelope; and the subtree
/// then stores what it stored, with the objects that went in for those that
/// the walk takes.
pub proof fn lemma_replaced_keeps_shape<T: RTreeObject, S: SelectionFunction<T>>(
    old: RTreeNode<T>,
    new: RTreeNode<T>,
    sel: S,
    vals: Seq<T>,
    h: nat,
    params: RTreeParams,
)
    requires
        replaced(old, new, sel, vals),
        old.wf_at(h, params),
        forall|k: int|
            0 <= k < vals.len() ==> (#[trigger] vals[k]).envelope_spec() == select_in(
                old,
                sel,
            )[k].envelope_spec(),
    ensures
        new.wf_at(h, params),
        new.envelope_spec() == old.envelope_spec(),
        new.items().add(select_in(old, sel).to_multiset()) == old.items().add(vals.to_multiset()),
    decreases h, 0nat, 0nat,
{
    reveal(replaced);
    lemma_replaced_len(old, new, sel, vals);
    match old {
        RTreeNode::Leaf(t) => {
            let u = new->Leaf_0;
            lemma_empty_to_multiset(Seq::<T>::empty());
            Seq::<T>::empty().to_multiset_ensures();
            assert(Seq::<T>::empty().push(t) =~= seq![t]);
            assert(Seq::<T>::empty().push(u) =~= seq![u]);
            if sel.yield_spec(t) {
                assert(vals[0] == u);
                assert(select_in(old, sel)[0] == t);
                assert(new.items().add(select_in(old, sel).to_multiset()) =~= old.items().add(
                    vals.to_multiset(),
                ));
            } else {
                assert(vals =~= Seq::<T>::empty());
                assert(new.items().add(select_in(old, sel).to_multiset()) =~= old.items().add(
                    vals.to_multiset(),
                ));
            }
        },
        RTreeNode::Parent(p) => {
            let q = new->Parent_0;
            lemma_items_parent(p);
            lemma_items_parent(q);
            lemma_select_parent(p, sel);
            if sel.descend_spec(p.envelope) {
                lemma_replaced_row_keeps_shape(
                    p.children@,
                    q.children@,
                    sel,
                    vals,
                    (h - 1) as nat,
                    params,
                );
            } else {
                lemma_empty_to_multiset(vals);
                lemma_empty_to_multiset(select_in(old, sel));
                assert(new.items().add(select_in(old, sel).to_multiset()) =~= old.items().add(
                    vals.to_multiset(),
                ));
            }
        },
    }
}

/// The same for a row of well formed subtrees.
pub proof fn lemma_replaced_row_keeps_shape<T: RTreeObject, S: SelectionFunction<T>>(
    old: Seq<RTreeNode<T>>,
    new: Seq<RTreeNode<T>>,
    sel: S,
    vals: Seq<T>,
    h: nat,
    params: RTreeParams,
)
    requires
        replaced_row(old, new, sel, vals),
        all_wf(old, h, params),
        forall|k: int|
            0 <= k < vals.len() ==> (#[trigger] vals[k]).envelope_spec() == nodes_selection(
                old,
                sel,
            )[k].envelope_spec(),
    ensures
        all_wf(new, h, params),
        nodes_envelope(new) == nodes_envelope(old),
        nodes_items(new).add(nodes_selection(old, sel).to_multiset()) == nodes_items(old).add(
            vals.to_multiset(),
        ),
    decreases h, 1nat, old.len(),
{
    if old.len() == 0 {
        lemma_empty_to_multiset(vals);
        lemma_empty_to_multiset(nodes_selection(old, sel));
        assert(new =~= old);
        assert(nodes_items(new).add(nodes_selection(old, sel).to_multiset()) =~= nodes_items(
            old,
        ).add(vals.to_multiset()));
    } else {
        let front = old.drop_last();
        let cut = nodes_selection(front, sel).len() as int;
        lemma_replaced_row_back(old, new, sel, vals);
        let head = vals.take(cut);
        let tail = vals.skip(cut);
        lemma_replaced_len(old.last(), new.last(), sel, tail);
        assert forall|i: int| 0 <= i < front.len() implies (#[trigger] front[i]).wf_at(h, params) by {
            assert(front[i] == old[i]);
        }
        assert(old[old.len() - 1].wf_at(h, params));
        assert forall|k: int| 0 <= k < head.len() implies (#[trigger] head[k]).envelope_spec()
            == nodes_selection(front, sel)[k].envelope_spec() by {
            assert(head[k] == vals[k]);
            assert(nodes_selection(old, sel)[k] == nodes_selection(front, sel)[k]);
        }
        assert forall|k: int| 0 <= k < tail.len() implies (#[trigger] tail[k]).envelope_spec()
            == select_in(old.last(), sel)[k].envelope_spec() by {
            assert(tail[k] == vals[cut + k]);
            assert(nodes_selection(old, sel)[cut + k] == select_in(old.last(), sel)[k]);
        }
        lemma_replaced_row_keeps_shape(front, new.drop_last(), sel, head, h, params);
        lemma_replaced_keeps_shape(old.last(), new.last(), sel, tail, h, params);
        assert forall|i: int| 0 <= i < new.len() implies (#[trigger] new[i]).wf_at(h, params) by {
            if i < new.len() - 1 {
                assert(new.drop_last()[i] == new[i]);
            }
        }
        assert(head + tail =~= vals);
        lemma_multiset_commutative(head, tail);
        lemma_multiset_commutative(nodes_selection(front, sel), select_in(old.last(), sel));
        assert(nodes_items(new).add(nodes_selection(old, sel).to_multiset()) =~= nodes_items(
            new.drop_last(),
        ).add(nodes_selection(front, sel).to_multiset()).add(
            new.last().items().add(select_in(old.last(), sel).to_multiset()),
        ));
        assert(nodes_items(old).add(vals.to_multiset()) =~= nodes_items(front).add(
            head.to_multiset(),
        ).add(old.last().items().add(tail.to_multiset())));
    }
}

/// Objects that go in with the envelopes of those that they replace leave a
/// well formed tree well formed, and as large as it was.
pub proof fn lemma_replaced_below_keeps_shape<T: RTreeObject, S: SelectionFunction<T>>(
    old: ParentNodeData<T>,
    new: ParentNodeData<T>,
    sel: S,
    vals: Seq<T>,
    h: nat,
    lo: nat,
    params: RTreeParams,
)
    requires
        replaced_below(old, new, sel, vals),
        old.wf_parent(h, lo, params),
        forall|k: int|
            0 <= k < vals.len() ==> (#[trigger] vals[k]).envelope_spec() == select_from(
                old,
                sel,
            )[k].envelope_spec(),
    ensures
        new.wf_parent(h, lo, params),
        new.items().add(select_from(old, sel).to_multiset()) == old.items().add(vals.to_multiset()),
        new.items().len() == old.items().len(),
{
    if sel.descend_spec(old.envelope) {
        lemma_replaced_row_keeps_shape(old.children@, new.children@, sel, vals, (h - 1) as nat, params);
    } else {
        lemma_empty_to_multiset(vals);
        lemma_empty_to_multiset(select_from(old, sel));
        assert(new.items().add(select_from(old, sel).to_multiset()) =~= old.items().add(
            vals.to_multiset(),
        ));
    }
    vals.to_multiset_ensures();
    select_from(old, sel).to_multiset_ensures();
    let taken = select_from(old, sel).to_multiset();
    assert(new.items().add(taken).len() == new.items().len() + taken.len());
    assert(old.items().add(vals.to_multiset()).len() == old.items().len()
        + vals.to_multiset().len());
}

/// Walks through the nodes of a row and adds to `out`, for every object that
/// `sel` takes, a reference through which the object can be changed.
pub fn select_row_mut<'a, T: RTreeObject, S: SelectionFunction<T>>(
    nodes: &'a mut [RTreeNode<T>],
    sel: &S,
    out: &mut Vec<&'a mut T>,
)
    ensures
        final(out)@.len() == old(out)@.len() + nodes_selection(old(nodes)@, *sel).len(),
        forall|i: int| 0 <= i < old(out)@.len() ==> final(out)@[i] == old(out)@[i],
        forall|k: int|
            0 <= k < nodes_selection(old(nodes)@, *sel).len() ==> *(#[trigger] final(out)@[old(
                out,
            )@.len() + k]) == nodes_selection(old(nodes)@, *sel)[k],
        exists|vals: Seq<T>|
            #![trigger vals.len()]
            vals.len() == nodes_selection(old(nodes)@, *sel).len() && (forall|k: int|
                0 <= k < vals.len() ==> #[trigger] vals[k] == *final(final(out)@[old(out)@.len() + k]))
                && replaced_row(old(nodes)@, final(nodes)@, *sel, vals),
    decreases nodes_weight(old(nodes)@),
{
    let ghost row = nodes@;
    let ghost row_fin = final(nodes)@;
    let ghost base = out@.len();
    if nodes.len() == 0 {
        proof {
            let vals = Seq::<T>::empty();
            assert(vals.len() == 0);
            assert(replaced_row(row, row_fin, *sel, vals));
        }
        return ;
    }
    let (first, rest) = nodes.split_at_mut(1);
    let ghost first_fin = final(first)@;
    let ghost rest_fin = final(rest)@;
    let ghost rest_old = rest@;
    proof {
        lemma_weight_front(row);
        lemma_selection_front(row, *sel);
        assert(rest_old =~= row.skip(1));
        assert(first@ =~= seq![row[0]]);
    }
    match &mut first[0] {
        RTreeNode::Leaf(t) => {
            if sel.should_unpack_leaf(t) {
                out.push(t);
            }
        },
        RTreeNode::Parent(p) => {
            proof {
                lemma_weight_parent(*p);
                lemma_select_parent(*p, *sel);
            }
            if sel.should_unpack_parent(&p.envelope) {
                select_row_mut(p.children.as_mut_slice(), sel, out);
            }
        },
    }
    let ghost mid = out@;
    let ghost head: Seq<T> = match row[0] {
        RTreeNode::Leaf(t) => if sel.yield_spec(t) {
            seq![first_fin[0]->Leaf_0]
        } else {
            Seq::empty()
        },
        RTreeNode::Parent(p) => if sel.descend_spec(p.envelope) {
            choose|vals: Seq<T>|
                #![trigger vals.len()]
                vals.len() == nodes_selection(p.children@, *sel).len() && (forall|k: int|
                    0 <= k < vals.len() ==> #[trigger] vals[k] == *final(mid[base + k]))
                    && replaced_row(p.children@, first_fin[0]->Parent_0.children@, *sel, vals)
        } else {
            Seq::empty()
        },
    };
    proof {
        assert(first_fin.len() == 1);
        match row[0] {
            RTreeNode::Parent(p) => {
                lemma_select_parent(p, *sel);
                lemma_replaced_parent(p, first_fin[0]->Parent_0, *sel, head);
            },
            RTreeNode::Leaf(t) => {
                lemma_replaced_leaf(t, first_fin[0]->Leaf_0, *sel);
            },
        }
        assert(head.len() == select_in(row[0], *sel).len());
        assert(mid.len() == base + head.len());
        assert(replaced(row[0], first_fin[0], *sel, head));
        assert(forall|k: int| 0 <= k < head.len() ==> #[trigger] head[k] == *final(mid[base + k]));
        assert(forall|k: int|
            0 <= k < head.len() ==> *(#[trigger] mid[base + k]) == select_in(row[0], *sel)[k]);
    }
    select_row_mut(rest, sel, out);
    proof {
        let tail = choose|vals: Seq<T>|
            #![trigger vals.len()]
            vals.len() == nodes_selection(rest_old, *sel).len() && (forall|k: int|
                0 <= k < vals.len() ==> #[trigger] vals[k] == *final(out@[mid.len() + k]))
                && replaced_row(rest_old, rest_fin, *sel, vals);
        let vals = head + tail;
        assert(row_fin =~= first_fin + rest_fin);
        assert(row_fin.skip(1) =~= rest_fin);
        assert(row_fin[0] == first_fin[0]);
        lemma_replaced_row_front(row, row_fin, *sel, head, tail);
        assert(vals.len() == nodes_selection(row, *sel).len());
        assert forall|k: int| 0 <= k < vals.len() implies #[trigger] vals[k] == *final(out@[base + k]) by {
            if k < head.len() {
                assert(out@[base + k] == mid[base + k]);
            } else {
                assert(vals[k] == tail[k - head.len()]);
                assert(out@[mid.len() + (k - head.len())] == out@[base + k]);
            }
        }
        assert forall|k: int| 0 <= k < nodes_selection(row, *sel).len() implies *(
        #[trigger] out@[base + k]) == nodes_selection(row, *sel)[k] by {
            if k < head.len() {
                assert(out@[base + k] == mid[base + k]);
            } else {
                assert(out@[mid.len() + (k - head.len())] == out@[base + k]);
            }
        }
    }
}

/// For every object of the tree below `root` that `sel` takes, in the order
/// of the walk, a reference through which the object can be changed.
pub fn select_mut<'a, T: RTreeObject, S: SelectionFunction<T>>(
    root: &'a mut ParentNodeData<T>,
    sel: &S,
) -> (r: Vec<&'a mut T>)
    ensures
        r@.len() == select_from(*old(root), *sel).len(),
        forall|k: int| 0 <= k < r@.len() ==> *(#[trigger] r@[k]) == select_from(*old(root), *sel)[k],
        exists|vals: Seq<T>|
            #![trigger vals.len()]
            vals.len() == r@.len() && (forall|k: int|
                0 <= k < vals.len() ==> #[trigger] vals[k] == *final(r@[k])) && replaced_below(
                *old(root),
                *final(root),
                *sel,
                vals,
            ),
{
    let mut out: Vec<&'a mut T> = Vec::new();
    let ghost root_fin = *final(root);
    if sel.should_unpack_parent(&root.envelope) {
        let ghost children_old = root.children@;
        select_row_mut(root.children.as_mut_slice(), sel, &mut out);
        proof {
            let vals = choose|vals: Seq<T>|
                #![trigger vals.len()]
                vals.len() == nodes_selection(children_old, *sel).len() && (forall|k: int|
                    0 <= k < vals.len() ==> #[trigger] vals[k] == *final(out@[0 + k]))
                    && replaced_row(children_old, root_fin.children@, *sel, vals);
            assert(vals.len() == out@.len());
            assert(forall|k: int| 0 <= k < vals.len() ==> #[trigger] vals[k] == *final(out@[k]));
            assert(replaced_below(*old(root), root_fin, *sel, vals));
            assert forall|k: int| 0 <= k < out@.len() implies *(#[trigger] out@[k]) == select_from(
                *old(root),
                *sel,
            )[k] by {
                assert(*out@[0 + k] == nodes_selection(children_old, *sel)[k]);
            }
        }
    } else {
        proof {
            let vals = Seq::<T>::empty();
            assert(vals.len() == out@.len());
            assert(replaced_below(*old(root), root_fin, *sel, vals));
        }
    }
    out
}

} // verus!
