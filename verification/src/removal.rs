use crate::insertion::insert_node;
use crate::node::{
    all_wf, envelope_for_children, lemma_items_parent, lemma_multiset_cancel,
    lemma_nodes_items_remove, lemma_nodes_items_update, nodes_envelope, nodes_items,
    ParentNodeData, RTreeNode,
};
use crate::object::RTreeObject;
use crate::params::RTreeParams;
use crate::selection::{lemma_select_parent, nodes_selection, select_from, select_in, SelectionFunction};
use vstd::prelude::*;

verus! {

/// Nodes that store the same objects under the same envelopes, place by
/// place, store the same objects under the same envelope together.
pub proof fn lemma_nodes_pointwise<T: RTreeObject>(a: Seq<RTreeNode<T>>, b: Seq<RTreeNode<T>>)
    requires
        a.len() == b.len(),
        forall|i: int|
            0 <= i < a.len() ==> a[i].items() == b[i].items() && a[i].envelope_spec()
                == b[i].envelope_spec(),
    ensures
        nodes_items(a) == nodes_items(b),
        nodes_envelope(a) == nodes_envelope(b),
    decreases a.len(),
{
    if a.len() > 0 {
        lemma_nodes_pointwise(a.drop_last(), b.drop_last());
    }
}

/// Where nothing is taken from any node, nothing is taken from all of them.
pub proof fn lemma_selection_none<T: RTreeObject, S: SelectionFunction<T>>(
    s: Seq<RTreeNode<T>>,
    sel: S,
)
    requires
        forall|j: int| 0 <= j < s.len() ==> (#[trigger] select_in(s[j], sel)).len() == 0,
    ensures
        nodes_selection(s, sel).len() == 0,
    decreases s.len(),
{
    if s.len() > 0 {
        assert forall|j: int| 0 <= j < s.drop_last().len() implies (#[trigger] select_in(
            s.drop_last()[j],
            sel,
        )).len() == 0 by {
            assert(s.drop_last()[j] == s[j]);
        }
        lemma_selection_none(s.drop_last(), sel);
        assert(select_in(s[s.len() - 1], sel).len() == 0);
    }
}

/// The first object taken from a sequence of nodes is the first one taken
/// from the first node from which any is taken.
pub proof fn lemma_selection_first<T: RTreeObject, S: SelectionFunction<T>>(
    s: Seq<RTreeNode<T>>,
    sel: S,
    k: int,
)
    requires
        0 <= k < s.len(),
        forall|j: int| 0 <= j < k ==> (#[trigger] select_in(s[j], sel)).len() == 0,
        select_in(s[k], sel).len() > 0,
    ensures
        nodes_selection(s, sel).len() > 0,
        nodes_selection(s, sel)[0] == select_in(s[k], sel)[0],
    decreases s.len(),
{
    if k == s.len() - 1 {
        assert forall|j: int| 0 <= j < s.drop_last().len() implies (#[trigger] select_in(
            s.drop_last()[j],
            sel,
        )).len() == 0 by {
            assert(s.drop_last()[j] == s[j]);
        }
        lemma_selection_none(s.drop_last(), sel);
    } else {
        assert forall|j: int| 0 <= j < k implies (#[trigger] select_in(s.drop_last()[j], sel)).len()
            == 0 by {
            assert(s.drop_last()[j] == s[j]);
        }
        assert(s.drop_last()[k] == s[k]);
        lemma_selection_first(s.drop_last(), sel, k);
    }
}

/// Moves every object stored in the subtree `node` to the end of `out`.
pub fn collect_leaves<T: RTreeObject>(node: RTreeNode<T>, out: &mut Vec<T>)
    ensures
        final(out)@.to_multiset() == old(out)@.to_multiset().add(node.items()),
    decreases node,
{
    match node {
        RTreeNode::Leaf(t) => {
            proof {
                out@.to_multiset_ensures();
            }
            out.push(t);
            proof {
                assert(out@.to_multiset() =~= old(out)@.to_multiset().add(node.items()));
            }
        },
        RTreeNode::Parent(p) => {
            proof {
                lemma_items_parent(p);
            }
            let ghost all = p.children@;
            let mut children = p.children;
            proof {
                assert(out@.to_multiset().add(nodes_items(children@)) =~= old(
                    out,
                )@.to_multiset().add(nodes_items(all)));
                assert(children@ =~= all.take(children@.len() as int));
            }
            while children.len() > 0
                invariant
                    node == RTreeNode::Parent(p),
                    all == p.children@,
                    children@.len() <= all.len(),
                    children@ == all.take(children@.len() as int),
                    out@.to_multiset().add(nodes_items(children@)) == old(out)@.to_multiset().add(
                        nodes_items(all),
                    ),
                decreases children@.len(),
            {
                let ghost before = children@;
                let ghost out_before = out@;
                let c = children.pop().unwrap();
                proof {
                    assert(children@ =~= before.drop_last());
                    assert(children@ =~= all.take(children@.len() as int));
                    assert(c == p.children[before.len() - 1]);
                    assert(node is Parent);
                    assert(p == node->Parent_0);
                    assert(decreases_to!(node => node->Parent_0));
                    assert(decreases_to!(node => c));
                }
                collect_leaves(c, out);
                proof {
                    assert(out@.to_multiset().add(nodes_items(children@))
                        =~= out_before.to_multiset().add(nodes_items(before)));
                }
            }
            proof {
                assert(nodes_items(children@) =~= vstd::multiset::Multiset::empty());
                assert(out@.to_multiset() =~= out@.to_multiset().add(nodes_items(children@)));
            }
        },
    }
}

/// Removes from the tree below `node` the first object that a walk steered by
/// `sel` takes, if there is one.
///
/// On the way back up every node on the path gets its envelope anew. A child
/// on the path that is left with fewer than `min_size` children is taken out
/// of its parent, and the objects below it are moved to `orphans`. The node
/// itself may be left with one child less than it had.
pub(crate) fn remove_below<T: RTreeObject, S: SelectionFunction<T>>(
    node: &mut ParentNodeData<T>,
    sel: &S,
    orphans: &mut Vec<T>,
    params: &RTreeParams,
    Ghost(h): Ghost<nat>,
    Ghost(lo): Ghost<nat>,
) -> (r: Option<T>)
    requires
        params.is_valid(),
        old(node).wf_parent(h, lo, *params),
    ensures
        match r {
            None => {
                &&& select_from(*old(node), *sel).len() == 0
                &&& final(node).wf_parent(h, lo, *params)
                &&& final(node).items() == old(node).items()
                &&& final(node).envelope == old(node).envelope
                &&& final(node).children@.len() == old(node).children@.len()
                &&& final(orphans)@ == old(orphans)@
            },
            Some(x) => {
                &&& select_from(*old(node), *sel).len() > 0
                &&& x == select_from(*old(node), *sel)[0]
                &&& final(node).wf_parent(h, 0, *params)
                &&& final(node).children@.len() + 1 >= old(node).children@.len()
                &&& final(node).items().add(final(orphans)@.to_multiset()).insert(x) == old(
                    node,
                ).items().add(old(orphans)@.to_multiset())
            },
        },
    decreases h,
{
    if !sel.should_unpack_parent(&node.envelope) {
        return None;
    }
    let ghost before = node.children@;
    let mut i: usize = 0;
    while i < node.children.len()
        invariant
            params.is_valid(),
            h > 0,
            i <= node.children@.len(),
            node.children@.len() == before.len(),
            before == old(node).children@,
            node.envelope == old(node).envelope,
            sel.descend_spec(old(node).envelope),
            old(node).wf_parent(h, lo, *params),
            orphans@ == old(orphans)@,
            all_wf(node.children@, (h - 1) as nat, *params),
            forall|j: int| i <= j < before.len() ==> node.children@[j] == before[j],
            forall|j: int|
                0 <= j < before.len() ==> (#[trigger] node.children@[j]).items()
                    == before[j].items() && node.children@[j].envelope_spec()
                    == before[j].envelope_spec(),
            forall|j: int| 0 <= j < i ==> (#[trigger] select_in(before[j], *sel)).len() == 0,
        decreases node.children@.len() - i,
    {
        let ghost current = node.children@;
        let leaf_hit = match &node.children[i] {
            RTreeNode::Leaf(t) => sel.should_unpack_leaf(t),
            RTreeNode::Parent(_) => false,
        };
        if leaf_hit {
            let child = node.children.remove(i);
            node.envelope = envelope_for_children(&node.children);
            proof {
                lemma_nodes_pointwise(current, before);
                lemma_nodes_items_remove(current, i as int);
                lemma_selection_first(before, *sel, i as int);
                assert forall|j: int| 0 <= j < node.children@.len() implies (
                #[trigger] node.children@[j]).wf_at((h - 1) as nat, *params) by {
                    if j < i {
                        assert(node.children@[j] == current[j]);
                    } else {
                        assert(node.children@[j] == current[j + 1]);
                    }
                }
            }
            match child {
                RTreeNode::Leaf(t) => {
                    proof {
                        assert(node.items().add(orphans@.to_multiset()).insert(t) =~= node.items().add(
                            child.items(),
                        ).add(orphans@.to_multiset()));
                    }
                    return Some(t);
                },
                RTreeNode::Parent(_) => {
                    return vstd::pervasive::unreached();
                },
            }
        }
        let mut taken: Option<T> = None;
        let mut underfull = false;
        match &mut node.children[i] {
            RTreeNode::Parent(p) => {
                proof {
                    lemma_items_parent(*p);
                    lemma_select_parent(*p, *sel);
                }
                taken = remove_below(
                    p,
                    sel,
                    orphans,
                    params,
                    Ghost((h - 1) as nat),
                    Ghost(params.min_size as nat),
                );
                underfull = p.children.len() < params.min_size;
                proof {
                    lemma_items_parent(*p);
                }
            },
            RTreeNode::Leaf(_) => {},
        }
        proof {
            assert(node.children@ =~= current.update(i as int, node.children@[i as int]));
            lemma_nodes_pointwise(current, before);
        }
        match taken {
            Some(x) => {
                let ghost after = node.children@;
                let ghost pa = after[i as int]->Parent_0;
                let ghost pb = current[i as int]->Parent_0;
                let ghost mid = orphans@;
                proof {
                    assert(current[i as int] == before[i as int]);
                    assert(before[i as int].wf_at((h - 1) as nat, *params));
                    lemma_items_parent(pa);
                    lemma_items_parent(pb);
                    lemma_select_parent(pb, *sel);
                    lemma_selection_first(before, *sel, i as int);
                    lemma_nodes_items_update(current, i as int, after[i as int]);
                    assert(pa.items().add(mid.to_multiset()).insert(x) == pb.items().add(
                        old(orphans)@.to_multiset(),
                    ));
                }
                if underfull {
                    let child = node.children.remove(i);
                    proof {
                        lemma_nodes_items_remove(after, i as int);
                        assert(after.remove(i as int) =~= current.remove(i as int));
                        lemma_nodes_items_remove(current, i as int);
                        assert(child == RTreeNode::Parent(pa));
                    }
                    collect_leaves(child, orphans);
                    node.envelope = envelope_for_children(&node.children);
                    proof {
                        assert forall|j: int| 0 <= j < node.children@.len() implies (
                        #[trigger] node.children@[j]).wf_at((h - 1) as nat, *params) by {
                            if j < i {
                                assert(node.children@[j] == current[j]);
                            } else {
                                assert(node.children@[j] == current[j + 1]);
                            }
                        }
                        let rest = nodes_items(node.children@);
                        let old_m = old(orphans)@.to_multiset();
                        assert(orphans@.to_multiset() == mid.to_multiset().add(pa.items()));
                        assert(nodes_items(current) == rest.add(pb.items()));
                        assert(rest.add(orphans@.to_multiset()).insert(x) =~= rest.add(
                            pa.items().add(mid.to_multiset()).insert(x),
                        ));
                        assert(rest.add(pb.items().add(old_m)) =~= rest.add(pb.items()).add(old_m));
                    }
                } else {
                    node.envelope = envelope_for_children(&node.children);
                    proof {
                        assert(after[i as int].wf_at((h - 1) as nat, *params));
                        assert forall|j: int| 0 <= j < node.children@.len() implies (
                        #[trigger] node.children@[j]).wf_at((h - 1) as nat, *params) by {
                            if j != i {
                                assert(node.children@[j] == current[j]);
                            }
                        }
                        let old_m = old(orphans)@.to_multiset();
                        assert(nodes_items(after).add(pb.items()) == nodes_items(current).add(
                            pa.items(),
                        ));
                        assert(nodes_items(after).add(mid.to_multiset()).insert(x).add(pb.items())
                            =~= nodes_items(after).add(pb.items()).add(mid.to_multiset()).insert(x));
                        assert(nodes_items(current).add(pa.items()).add(mid.to_multiset()).insert(x)
                            =~= nodes_items(current).add(
                            pa.items().add(mid.to_multiset()).insert(x),
                        ));
                        assert(nodes_items(current).add(pb.items().add(old_m)) =~= nodes_items(
                            current,
                        ).add(old_m).add(pb.items()));
                        lemma_multiset_cancel(
                            node.items().add(orphans@.to_multiset()).insert(x),
                            old(node).items().add(old(orphans)@.to_multiset()),
                            pb.items(),
                        );
                    }
                }
                return Some(x);
            },
            None => {
                proof {
                    match current[i as int] {
                        RTreeNode::Parent(pb) => {
                            let pa = node.children@[i as int]->Parent_0;
                            lemma_items_parent(pa);
                            lemma_items_parent(pb);
                            lemma_select_parent(pb, *sel);
                        },
                        RTreeNode::Leaf(_) => {},
                    }
                    assert forall|j: int| 0 <= j < node.children@.len() implies (
                    #[trigger] node.children@[j]).wf_at((h - 1) as nat, *params) by {
                        if j != i {
                            assert(node.children@[j] == current[j]);
                        }
                    }
                }
            },
        }
        i += 1;
    }
    proof {
        lemma_selection_none(before, *sel);
        lemma_nodes_pointwise(node.children@, before);
    }
    None
}


/// Removes from the tree with the given root and height the first object
/// that a walk steered by `sel` takes, if there is one, and hands it out.
///
/// The objects below every node that the removal left too small are inserted
/// again; at the end a root with a single inner node as its child gives way
/// to that child, and the tree is one level lower.
pub(crate) fn remove<T: RTreeObject, S: SelectionFunction<T>>(
    root: &mut ParentNodeData<T>,
    height: &mut usize,
    sel: &S,
    params: &RTreeParams,
) -> (r: Option<T>)
    requires
        params.is_valid(),
        old(root).wf_parent(*old(height) as nat, crate::node::root_min(*old(height) as nat), *params),
        old(root).items().len() <= usize::MAX,
    ensures
        final(root).wf_parent(
            *final(height) as nat,
            crate::node::root_min(*final(height) as nat),
            *params,
        ),
        match r {
            None => {
                &&& select_from(*old(root), *sel).len() == 0
                &&& final(root).items() == old(root).items()
                &&& *final(height) == *old(height)
            },
            Some(x) => {
                &&& select_from(*old(root), *sel).len() > 0
                &&& x == select_from(*old(root), *sel)[0]
                &&& old(root).items().count(x) > 0
                &&& final(root).items() == old(root).items().remove(x)
                &&& final(root).items().insert(x) == old(root).items()
            },
        },
{
    let mut orphans: Vec<T> = Vec::new();
    let ghost h0 = *height as nat;
    let ghost none = orphans@;
    let r = remove_below(
        root,
        sel,
        &mut orphans,
        params,
        Ghost(h0),
        Ghost(crate::node::root_min(h0)),
    );
    match r {
        None => {
            proof {
                assert(*height == h0);
                assert(root.wf_parent(h0, crate::node::root_min(h0), *params));
            }
            None
        },
        Some(x) => {
            let ghost mut cur_lo: nat = if h0 >= 2 {
                1
            } else {
                0
            };
            proof {
                crate::sort::lemma_empty_to_multiset(none);
                assert(root.items().add(orphans@.to_multiset()).insert(x) =~= old(root).items());
                orphans@.to_multiset_ensures();
            }
            while orphans.len() > 0
                invariant
                    params.is_valid(),
                    root.wf_parent(*height as nat, cur_lo, *params),
                    cur_lo <= 2,
                    *height >= 2 ==> cur_lo >= 1,
                    *height == h0 ==> cur_lo >= (if h0 >= 2 {
                        1nat
                    } else {
                        0nat
                    }),
                    *height >= h0,
                    *height > h0 ==> cur_lo == 2,
                    root.items().add(orphans@.to_multiset()).insert(x) == old(root).items(),
                    old(root).items().len() <= usize::MAX,
                decreases orphans@.len(),
            {
                let ghost before = orphans@;
                let ghost items_before = root.items();
                let ghost height_before = *height;
                let o = orphans.pop().unwrap();
                proof {
                    assert(orphans@ =~= before.remove(before.len() - 1));
                    before.to_multiset_ensures();
                    assert(before.contains(before[before.len() - 1]));
                    assert(items_before.add(before.to_multiset()).insert(x).len()
                        == items_before.len() + before.to_multiset().len() + 1);
                }
                insert_node(root, height, o, params, Ghost(cur_lo));
                proof {
                    if *height > height_before {
                        cur_lo = 2;
                    }
                    assert(root.items().add(orphans@.to_multiset()).insert(x)
                        =~= items_before.add(before.to_multiset()).insert(x));
                }
            }
            proof {
                crate::sort::lemma_empty_to_multiset(orphans@);
                assert(root.items().insert(x) =~= old(root).items());
                assert(root.items() =~= old(root).items().remove(x));
                assert(old(root).items().count(x) > 0);
            }
            let ghost settled = *root;
            let ghost hs = *height as nat;
            proof {
                assert(settled.wf_parent(hs, cur_lo, *params));
            }
            if root.children.len() == 1 {
                proof {
                    assert(settled.children@[0].wf_at((hs - 1) as nat, *params));
                }
                let inner = match &root.children[0] {
                    RTreeNode::Parent(_) => true,
                    RTreeNode::Leaf(_) => false,
                };
                if inner {
                    let ghost only = root.children@[0];
                    let child = root.children.pop().unwrap();
                    match child {
                        RTreeNode::Parent(p) => {
                            proof {
                                lemma_items_parent(p);
                                crate::node::lemma_nodes_items_single(only);
                            }
                            *root = p;
                            *height = *height - 1;
                            proof {
                                assert(only == RTreeNode::Parent(p));
                                assert(settled.children@ =~= seq![only]);
                                assert(p.wf_parent((hs - 1) as nat, params.min_size as nat, *params));
                                assert(root.wf_parent(
                                    *height as nat,
                                    crate::node::root_min(*height as nat),
                                    *params,
                                ));
                                assert(root.items() == settled.items());
                            }
                        },
                        RTreeNode::Leaf(_) => {
                            vstd::pervasive::unreached::<()>();
                        },
                    }
                } else {
                    proof {
                        assert(hs == 1);
                    }
                }
            } else {
                proof {
                    assert(root.wf_parent(hs, crate::node::root_min(hs), *params));
                }
            }
            Some(x)
        },
    }
}

} // verus!
