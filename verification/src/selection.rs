use crate::aabb::AABB;
use crate::node::{
    lemma_items_parent, lemma_parent_covers, lemma_weight_front, lemma_weight_parent, node_weight,
    nodes_items, nodes_weight, ParentNodeData, RTreeNode,
};
use crate::object::{ObjectEq, PointDistance, RTreeObject};
use crate::params::RTreeParams;
use crate::point::Point;
use crate::sort::lemma_empty_to_multiset;
use vstd::prelude::*;
use vstd::seq_lib::lemma_multiset_commutative;

verus! {

/// A pair of tests that steers a walk through the tree: which inner nodes to
/// open, and which objects to take.
pub trait SelectionFunction<T: RTreeObject> {
    /// Whether the walk opens an inner node with this envelope.
    spec fn descend_spec(&self, envelope: AABB) -> bool;

    fn should_unpack_parent(&self, envelope: &AABB) -> (r: bool)
        ensures
            r == self.descend_spec(*envelope),
    ;

    /// Whether the walk takes this object.
    spec fn yield_spec(&self, t: T) -> bool;

    fn should_unpack_leaf(&self, leaf: &T) -> (r: bool)
        ensures
            r == self.yield_spec(*leaf),
    ;

    /// An object that is taken lies below every node that the walk could
    /// reach it through: the walk opens each envelope that holds the object's.
    proof fn lemma_descend(&self, t: T, envelope: AABB)
        requires
            self.yield_spec(t),
            envelope.contains_envelope_spec(t.envelope_spec()),
        ensures
            self.descend_spec(envelope),
    ;
}

/// Takes every object.
pub struct SelectAllFunc;

/// Takes the objects whose envelope lies in the given one.
pub struct SelectInEnvelopeFunction {
    pub envelope: AABB,
}

/// Takes the objects whose envelope meets the given one.
pub struct SelectInEnvelopeFuncIntersecting {
    pub envelope: AABB,
}

/// Takes the objects that cover the given point.
pub struct SelectAtPointFunction {
    pub point: Point,
}

/// Takes the objects equal to the given one.
pub struct SelectEqualsFunction<'a, T: RTreeObject + ObjectEq> {
    pub object: &'a T,
}

impl<T: RTreeObject> SelectionFunction<T> for SelectAllFunc {
    open spec fn descend_spec(&self, envelope: AABB) -> bool {
        true
    }

    fn should_unpack_parent(&self, envelope: &AABB) -> (r: bool) {
        true
    }

    open spec fn yield_spec(&self, t: T) -> bool {
        true
    }

    fn should_unpack_leaf(&self, leaf: &T) -> (r: bool) {
        true
    }

    proof fn lemma_descend(&self, t: T, envelope: AABB) {
    }
}

impl SelectInEnvelopeFunction {
    pub fn new(envelope: AABB) -> (r: Self)
        ensures
            r.envelope == envelope,
    {
        SelectInEnvelopeFunction { envelope }
    }
}

impl<T: RTreeObject> SelectionFunction<T> for SelectInEnvelopeFunction {
    open spec fn descend_spec(&self, envelope: AABB) -> bool {
        self.envelope.intersects_spec(envelope)
    }

    fn should_unpack_parent(&self, envelope: &AABB) -> (r: bool) {
        self.envelope.intersects(envelope)
    }

    open spec fn yield_spec(&self, t: T) -> bool {
        self.envelope.contains_envelope_spec(t.envelope_spec())
    }

    fn should_unpack_leaf(&self, leaf: &T) -> (r: bool) {
        let e = leaf.envelope();
        self.envelope.contains_envelope(&e)
    }

    proof fn lemma_descend(&self, t: T, envelope: AABB) {
        t.lemma_envelope_valid();
    }
}

impl SelectInEnvelopeFuncIntersecting {
    pub fn new(envelope: AABB) -> (r: Self)
        ensures
            r.envelope == envelope,
    {
        SelectInEnvelopeFuncIntersecting { envelope }
    }
}

impl<T: RTreeObject> SelectionFunction<T> for SelectInEnvelopeFuncIntersecting {
    open spec fn descend_spec(&self, envelope: AABB) -> bool {
        self.envelope.intersects_spec(envelope)
    }

    fn should_unpack_parent(&self, envelope: &AABB) -> (r: bool) {
        self.envelope.intersects(envelope)
    }

    open spec fn yield_spec(&self, t: T) -> bool {
        self.envelope.intersects_spec(t.envelope_spec())
    }

    fn should_unpack_leaf(&self, leaf: &T) -> (r: bool) {
        let e = leaf.envelope();
        self.envelope.intersects(&e)
    }

    proof fn lemma_descend(&self, t: T, envelope: AABB) {
    }
}

impl SelectAtPointFunction {
    pub fn new(point: Point) -> (r: Self)
        ensures
            r.point == point,
    {
        SelectAtPointFunction { point }
    }
}

impl<T: PointDistance> SelectionFunction<T> for SelectAtPointFunction {
    open spec fn descend_spec(&self, envelope: AABB) -> bool {
        envelope.contains_point_spec(self.point)
    }

    fn should_unpack_parent(&self, envelope: &AABB) -> (r: bool) {
        envelope.contains_point(&self.point)
    }

    open spec fn yield_spec(&self, t: T) -> bool {
        t.contains_point_spec(self.point)
    }

    fn should_unpack_leaf(&self, leaf: &T) -> (r: bool) {
        leaf.contains_point(&self.point)
    }

    proof fn lemma_descend(&self, t: T, envelope: AABB) {
        t.lemma_contained_in_envelope(self.point);
    }
}

impl<'a, T: RTreeObject + ObjectEq> SelectEqualsFunction<'a, T> {
    pub fn new(object: &'a T) -> (r: Self)
        ensures
            r.object == object,
    {
        SelectEqualsFunction { object }
    }
}

impl<'a, T: RTreeObject + ObjectEq> SelectionFunction<T> for SelectEqualsFunction<'a, T> {
    open spec fn descend_spec(&self, envelope: AABB) -> bool {
        envelope.contains_envelope_spec(self.object.envelope_spec())
    }

    fn should_unpack_parent(&self, envelope: &AABB) -> (r: bool) {
        let e = self.object.envelope();
        envelope.contains_envelope(&e)
    }

    open spec fn yield_spec(&self, t: T) -> bool {
        t == *self.object
    }

    fn should_unpack_leaf(&self, leaf: &T) -> (r: bool) {
        leaf.same_object(self.object)
    }

    proof fn lemma_descend(&self, t: T, envelope: AABB) {
    }
}

/// The concatenation of a sequence of sequences.
pub open spec fn concat_all<T>(s: Seq<Seq<T>>) -> Seq<T>
    decreases s.len(),
{
    if s.len() == 0 {
        Seq::empty()
    } else {
        concat_all(s.drop_last()) + s.last()
    }
}

/// The objects that a walk steered by `sel` takes from the subtree `node`,
/// in the order in which it meets them: children are visited first to last,
/// and an inner node is opened only where `sel` says so of its envelope.
pub open spec fn select_in<T: RTreeObject, S: SelectionFunction<T>>(
    node: RTreeNode<T>,
    sel: S,
) -> Seq<T>
    decreases node,
{
    match node {
        RTreeNode::Leaf(t) => if sel.yield_spec(t) {
            seq![t]
        } else {
            Seq::empty()
        },
        RTreeNode::Parent(p) => if sel.descend_spec(p.envelope) {
            concat_all(child_selection(p, sel))
        } else {
            Seq::empty()
        },
    }
}

/// What the walk takes from each child of `p`, child by child.
pub open spec fn child_selection<T: RTreeObject, S: SelectionFunction<T>>(
    p: ParentNodeData<T>,
    sel: S,
) -> Seq<Seq<T>>
    decreases p,
{
    Seq::new(
        p.children@.len(),
        |i: int|
            if 0 <= i < p.children@.len() {
                select_in(p.children@[i], sel)
            } else {
                Seq::empty()
            },
    )
}

/// What the walk takes from the nodes of `s`, one after the other.
pub open spec fn nodes_selection<T: RTreeObject, S: SelectionFunction<T>>(
    s: Seq<RTreeNode<T>>,
    sel: S,
) -> Seq<T>
    decreases s.len(),
{
    if s.len() == 0 {
        Seq::empty()
    } else {
        nodes_selection(s.drop_last(), sel) + select_in(s.last(), sel)
    }
}

/// What the walk takes from the tree below `p`.
pub open spec fn select_from<T: RTreeObject, S: SelectionFunction<T>>(
    p: ParentNodeData<T>,
    sel: S,
) -> Seq<T> {
    if sel.descend_spec(p.envelope) {
        nodes_selection(p.children@, sel)
    } else {
        Seq::empty()
    }
}

/// The objects that a vector of references points to.
pub open spec fn referents<T>(s: Seq<&T>) -> Seq<T> {
    Seq::new(s.len(), |i: int| *s[i])
}

proof fn lemma_selection_prefix<T: RTreeObject, S: SelectionFunction<T>>(
    s: Seq<RTreeNode<T>>,
    m: Seq<Seq<T>>,
    sel: S,
    n: nat,
)
    requires
        m.len() == s.len(),
        n <= s.len(),
        forall|i: int| 0 <= i < s.len() ==> m[i] == select_in(s[i], sel),
    ensures
        concat_all(m.take(n as int)) == nodes_selection(s.take(n as int), sel),
    decreases n,
{
    if n > 0 {
        lemma_selection_prefix(s, m, sel, (n - 1) as nat);
        assert(m.take(n as int).drop_last() =~= m.take(n - 1));
        assert(s.take(n as int).drop_last() =~= s.take(n - 1));
    }
}

/// What the walk takes from an inner node is what it takes from the tree
/// below that node.
pub proof fn lemma_select_parent<T: RTreeObject, S: SelectionFunction<T>>(
    p: ParentNodeData<T>,
    sel: S,
)
    ensures
        select_in(RTreeNode::Parent(p), sel) == select_from(p, sel),
{
    let m = child_selection(p, sel);
    lemma_selection_prefix(p.children@, m, sel, p.children@.len());
    assert(m.take(m.len() as int) =~= m);
    assert(p.children@.take(p.children@.len() as int) =~= p.children@);
}

/// The first node of a row comes first in the walk.
pub proof fn lemma_selection_front<T: RTreeObject, S: SelectionFunction<T>>(
    s: Seq<RTreeNode<T>>,
    sel: S,
)
    requires
        s.len() > 0,
    ensures
        nodes_selection(s, sel) == select_in(s[0], sel) + nodes_selection(s.skip(1), sel),
    decreases s.len(),
{
    if s.len() == 1 {
        assert(s.drop_last() =~= Seq::<RTreeNode<T>>::empty());
        assert(s.skip(1) =~= Seq::<RTreeNode<T>>::empty());
        assert(nodes_selection(s, sel) =~= select_in(s[0], sel) + nodes_selection(s.skip(1), sel));
    } else {
        lemma_selection_front(s.drop_last(), sel);
        assert(s.drop_last().skip(1) =~= s.skip(1).drop_last());
        assert(s.skip(1).last() == s.last());
        assert(s.drop_last()[0] == s[0]);
        assert(nodes_selection(s, sel) =~= select_in(s[0], sel) + nodes_selection(s.skip(1), sel));
    }
}

/// What a walk takes from the nodes of a stack, the last node first.
pub open spec fn stack_selection<'a, T: RTreeObject, S: SelectionFunction<T>>(
    stack: Seq<&'a RTreeNode<T>>,
    sel: S,
) -> Seq<T>
    decreases stack.len(),
{
    if stack.len() == 0 {
        Seq::empty()
    } else {
        select_in(*stack.last(), sel) + stack_selection(stack.drop_last(), sel)
    }
}

/// How many steps a walk can take on the nodes of a stack.
pub open spec fn stack_weight<'a, T: RTreeObject>(stack: Seq<&'a RTreeNode<T>>) -> nat
    decreases stack.len(),
{
    if stack.len() == 0 {
        0
    } else {
        stack_weight(stack.drop_last()) + node_weight(*stack.last())
    }
}

/// A walk through a tree that hands out, one by one, the objects that its
/// selection function takes. It keeps the nodes that it has still to visit
/// on a stack, and can be left and taken up again at any time.
pub struct SelectionIterator<'a, T: RTreeObject, S: SelectionFunction<T>> {
    pub selector: S,
    pub stack: Vec<&'a RTreeNode<T>>,
}

impl<'a, T: RTreeObject, S: SelectionFunction<T>> SelectionIterator<'a, T, S> {
    /// The objects that the walk has still to hand out, in order.
    pub open spec fn pending(&self) -> Seq<T> {
        stack_selection(self.stack@, self.selector)
    }

    /// Puts the children of `p` on the stack, the first on top.
    fn unpack(&mut self, p: &'a ParentNodeData<T>)
        ensures
            final(self).selector == old(self).selector,
            final(self).pending() == nodes_selection(p.children@, old(self).selector) + old(
                self,
            ).pending(),
            stack_weight(final(self).stack@) == stack_weight(old(self).stack@) + nodes_weight(
                p.children@,
            ),
    {
        let mut i: usize = p.children.len();
        proof {
            assert(p.children@.skip(i as int) =~= Seq::<RTreeNode<T>>::empty());
            assert(self.pending() =~= nodes_selection(p.children@.skip(i as int), self.selector)
                + old(self).pending());
        }
        while i > 0
            invariant
                i <= p.children@.len(),
                self.selector == old(self).selector,
                self.pending() == nodes_selection(p.children@.skip(i as int), self.selector) + old(
                    self,
                ).pending(),
                stack_weight(self.stack@) == stack_weight(old(self).stack@) + nodes_weight(
                    p.children@.skip(i as int),
                ),
            decreases i,
        {
            i -= 1;
            let ghost before = self.stack@;
            self.stack.push(&p.children[i]);
            proof {
                assert(self.stack@.drop_last() =~= before);
                lemma_selection_front(p.children@.skip(i as int), self.selector);
                lemma_weight_front(p.children@.skip(i as int));
                assert(p.children@.skip(i as int).skip(1) =~= p.children@.skip(i + 1));
                assert(self.pending() =~= nodes_selection(
                    p.children@.skip(i as int),
                    self.selector,
                ) + old(self).pending());
            }
        }
        proof {
            assert(p.children@.skip(0) =~= p.children@);
        }
    }

    /// The walk through the tree below `root` that `selector` steers.
    pub fn new(root: &'a ParentNodeData<T>, selector: S) -> (r: Self)
        ensures
            r.selector == selector,
            r.pending() == select_from(*root, selector),
    {
        let mut r = SelectionIterator { selector, stack: Vec::new() };
        if r.selector.should_unpack_parent(&root.envelope) {
            r.unpack(root);
        }
        proof {
            assert(r.pending() =~= select_from(*root, selector));
        }
        r
    }

    /// Hands out the next object of the walk; `None` at its end.
    pub fn next(&mut self) -> (r: Option<&'a T>)
        ensures
            final(self).selector == old(self).selector,
            match r {
                None => old(self).pending().len() == 0 && final(self).pending().len() == 0,
                Some(x) => {
                    &&& old(self).pending().len() > 0
                    &&& *x == old(self).pending()[0]
                    &&& final(self).pending() == old(self).pending().skip(1)
                },
            },
    {
        loop
            invariant
                self.selector == old(self).selector,
                self.pending() == old(self).pending(),
            decreases stack_weight(self.stack@),
        {
            let ghost before = self.stack@;
            match self.stack.pop() {
                None => {
                    return None;
                },
                Some(node) => {
                    proof {
                        assert(self.stack@ =~= before.drop_last());
                    }
                    match node {
                        RTreeNode::Leaf(t) => {
                            if self.selector.should_unpack_leaf(t) {
                                proof {
                                    assert(self.pending() =~= old(self).pending().skip(1));
                                }
                                return Some(t);
                            }
                            proof {
                                assert(self.pending() =~= old(self).pending());
                            }
                        },
                        RTreeNode::Parent(p) => {
                            proof {
                                lemma_select_parent(*p, self.selector);
                                lemma_weight_parent(*p);
                            }
                            if self.selector.should_unpack_parent(&p.envelope) {
                                self.unpack(p);
                            } else {
                                proof {
                                    assert(self.pending() =~= old(self).pending());
                                }
                            }
                        },
                    }
                },
            }
        }
    }

    /// Hands out all objects that the walk has still to hand out, in order.
    pub fn collect(self) -> (r: Vec<&'a T>)
        ensures
            referents(r@) == self.pending(),
    {
        let mut it = self;
        let mut out: Vec<&'a T> = Vec::new();
        proof {
            assert(referents(out@) + it.pending() =~= self.pending());
        }
        loop
            invariant
                referents(out@) + it.pending() == self.pending(),
            decreases it.pending().len(),
        {
            let ghost left = it.pending();
            let ghost so_far = out@;
            match it.next() {
                None => {
                    proof {
                        assert(referents(out@) =~= self.pending());
                    }
                    return out;
                },
                Some(x) => {
                    out.push(x);
                    proof {
                        assert(referents(out@) + it.pending() =~= referents(so_far) + left);
                    }
                },
            }
        }
    }

    /// How many objects the walk has still to hand out.
    pub fn count(self) -> (n: usize)
        ensures
            n == self.pending().len(),
    {
        self.collect().len()
    }
}


/// The test "`sel` takes this object", as a function.
pub open spec fn taken_by<T: RTreeObject, S: SelectionFunction<T>>(sel: S) -> spec_fn(T) -> bool {
    |t: T| sel.yield_spec(t)
}

/// From a well formed subtree the walk takes exactly the stored objects that
/// `sel` takes, each as often as it is stored.
pub proof fn lemma_select_node<T: RTreeObject, S: SelectionFunction<T>>(
    node: RTreeNode<T>,
    sel: S,
    h: nat,
    params: RTreeParams,
)
    requires
        node.wf_at(h, params),
    ensures
        select_in(node, sel).to_multiset() == node.items().filter(taken_by(sel)),
    decreases h, 0nat, 1nat,
{
    let f = taken_by(sel);
    match node {
        RTreeNode::Leaf(t) => {
            let e = Seq::<T>::empty();
            lemma_empty_to_multiset(e);
            e.to_multiset_ensures();
            assert(e.push(t) =~= seq![t]);
            assert(node.items().filter(f) =~= select_in(node, sel).to_multiset());
        },
        RTreeNode::Parent(p) => {
            lemma_select_parent(p, sel);
            lemma_items_parent(p);
            lemma_select_below(p, sel, h, params.min_size as nat, params);
        },
    }
}

/// From well formed subtrees the walk takes exactly the stored objects that
/// `sel` takes.
pub proof fn lemma_select_nodes<T: RTreeObject, S: SelectionFunction<T>>(
    s: Seq<RTreeNode<T>>,
    sel: S,
    h: nat,
    params: RTreeParams,
)
    requires
        forall|i: int| 0 <= i < s.len() ==> (#[trigger] s[i]).wf_at(h, params),
    ensures
        nodes_selection(s, sel).to_multiset() == nodes_items(s).filter(taken_by(sel)),
    decreases h, 1nat, s.len(),
{
    let f = taken_by(sel);
    if s.len() == 0 {
        lemma_empty_to_multiset(nodes_selection(s, sel));
        assert(nodes_items(s).filter(f) =~= vstd::multiset::Multiset::empty());
    } else {
        assert(s.last().wf_at(h, params));
        assert forall|i: int| 0 <= i < s.drop_last().len() implies (#[trigger] s.drop_last()[i]).wf_at(
            h,
            params,
        ) by {
            assert(s.drop_last()[i] == s[i]);
        }
        lemma_select_nodes(s.drop_last(), sel, h, params);
        lemma_select_node(s.last(), sel, h, params);
        lemma_multiset_commutative(
            nodes_selection(s.drop_last(), sel),
            select_in(s.last(), sel),
        );
        assert(nodes_items(s).filter(f) =~= nodes_items(s.drop_last()).filter(f).add(
            s.last().items().filter(f),
        ));
    }
}

/// From a well formed tree the walk takes exactly the stored objects that
/// `sel` takes, each as often as it is stored.
pub proof fn lemma_select_below<T: RTreeObject, S: SelectionFunction<T>>(
    p: ParentNodeData<T>,
    sel: S,
    h: nat,
    lo: nat,
    params: RTreeParams,
)
    requires
        p.wf_parent(h, lo, params),
    ensures
        select_from(p, sel).to_multiset() == p.items().filter(taken_by(sel)),
    decreases h, 0nat, 0nat,
{
    let f = taken_by(sel);
    if sel.descend_spec(p.envelope) {
        lemma_select_nodes(p.children@, sel, (h - 1) as nat, params);
    } else {
        lemma_empty_to_multiset(select_from(p, sel));
        assert forall|x: T| p.items().filter(f).count(x) == 0 by {
            if p.items().count(x) > 0 && sel.yield_spec(x) {
                lemma_parent_covers(p, h, lo, params, x);
                sel.lemma_descend(x, p.envelope);
            }
        }
        assert(p.items().filter(f) =~= vstd::multiset::Multiset::empty());
    }
}

} // verus!
