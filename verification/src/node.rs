use crate::aabb::{lemma_merged_contains, AABB};
use crate::object::RTreeObject;
use crate::params::RTreeParams;
use vstd::multiset::Multiset;
use vstd::prelude::*;

verus! {

/// A node of the tree: a stored object, or an inner node with its children.
pub enum RTreeNode<T: RTreeObject> {
    Leaf(T),
    Parent(ParentNodeData<T>),
}

/// An inner node: its children in order, and the envelope that holds them all.
pub struct ParentNodeData<T: RTreeObject> {
    pub children: Vec<RTreeNode<T>>,
    pub envelope: AABB,
}

/// The sum of a sequence of multisets.
pub open spec fn multiset_sum<T>(s: Seq<Multiset<T>>) -> Multiset<T>
    decreases s.len(),
{
    if s.len() == 0 {
        Multiset::empty()
    } else {
        multiset_sum(s.drop_last()).add(s.last())
    }
}

/// The objects stored below the nodes of `s`, with their multiplicities.
pub open spec fn nodes_items<T: RTreeObject>(s: Seq<RTreeNode<T>>) -> Multiset<T>
    decreases s.len(),
{
    if s.len() == 0 {
        Multiset::empty()
    } else {
        nodes_items(s.drop_last()).add(s.last().items())
    }
}

/// The union of the envelopes of the nodes of `s`; empty for no node.
pub open spec fn nodes_envelope<T: RTreeObject>(s: Seq<RTreeNode<T>>) -> AABB
    decreases s.len(),
{
    if s.len() == 0 {
        AABB::empty_spec()
    } else {
        nodes_envelope(s.drop_last()).merged_spec(s.last().envelope_spec())
    }
}

impl<T: RTreeObject> RTreeNode<T> {
    /// The objects stored in this subtree, with their multiplicities.
    pub open spec fn items(self) -> Multiset<T>
        decreases self,
    {
        match self {
            RTreeNode::Leaf(t) => Multiset::singleton(t),
            RTreeNode::Parent(p) => multiset_sum(p.child_items()),
        }
    }

    /// A leaf's envelope is its object's; an inner node's is the one it holds.
    pub open spec fn envelope_spec(self) -> AABB {
        match self {
            RTreeNode::Leaf(t) => t.envelope_spec(),
            RTreeNode::Parent(p) => p.envelope,
        }
    }

    /// This node is a well formed subtree of height `h` below the root: a leaf
    /// for height zero, else an inner node with between `min_size` and
    /// `max_size` well formed children of height `h - 1`, whose envelope is
    /// the union of theirs.
    pub open spec fn wf_at(self, h: nat, params: RTreeParams) -> bool
        decreases h, 1nat,
    {
        match self {
            RTreeNode::Leaf(_) => h == 0,
            RTreeNode::Parent(p) => h > 0 && p.wf_parent(h, params.min_size as nat, params),
        }
    }

    pub fn envelope(&self) -> (e: AABB)
        ensures
            e == self.envelope_spec(),
    {
        match self {
            RTreeNode::Leaf(t) => t.envelope(),
            RTreeNode::Parent(p) => p.envelope,
        }
    }
}

impl<T: RTreeObject> ParentNodeData<T> {
    /// What each child stores, child by child.
    pub open spec fn child_items(self) -> Seq<Multiset<T>>
        decreases self,
    {
        Seq::new(
            self.children@.len(),
            |i: int|
                if 0 <= i < self.children@.len() {
                    self.children@[i].items()
                } else {
                    Multiset::empty()
                },
        )
    }

    /// The objects stored below this node.
    pub open spec fn items(self) -> Multiset<T> {
        nodes_items(self.children@)
    }

    /// This node has height `h >= 1`, at least `lo` and at most `max_size`
    /// children, each a well formed subtree of height `h - 1`, and its
    /// envelope is the union of theirs.
    pub open spec fn wf_parent(self, h: nat, lo: nat, params: RTreeParams) -> bool
        decreases h, 0nat,
    {
        &&& h > 0
        &&& lo <= self.children@.len() <= params.max_size
        &&& self.envelope == nodes_envelope(self.children@)
        &&& forall|i: int|
            0 <= i < self.children@.len() ==> (#[trigger] self.children@[i]).wf_at(
                (h - 1) as nat,
                params,
            )
    }

    /// An inner node without children.
    pub fn new_root() -> (r: ParentNodeData<T>)
        ensures
            r.children@.len() == 0,
            r.envelope == AABB::empty_spec(),
    {
        ParentNodeData { children: Vec::new(), envelope: AABB::new_empty() }
    }

    /// An inner node with the given children.
    pub fn new_parent(children: Vec<RTreeNode<T>>) -> (r: ParentNodeData<T>)
        ensures
            r.children == children,
            r.envelope == nodes_envelope(children@),
    {
        let envelope = envelope_for_children(&children);
        ParentNodeData { children, envelope }
    }
}

/// The union of the envelopes of `children`.
pub fn envelope_for_children<T: RTreeObject>(children: &Vec<RTreeNode<T>>) -> (e: AABB)
    ensures
        e == nodes_envelope(children@),
{
    let mut e = AABB::new_empty();
    let mut i: usize = 0;
    while i < children.len()
        invariant
            i <= children.len(),
            e == nodes_envelope(children@.take(i as int)),
        decreases children.len() - i,
    {
        proof {
            assert(children@.take(i + 1).drop_last() =~= children@.take(i as int));
        }
        let c = children[i].envelope();
        e.merge(&c);
        i += 1;
    }
    proof {
        assert(children@.take(i as int) =~= children@);
    }
    e
}

/// A multiset that is added on both sides of an equation can be left out.
pub proof fn lemma_multiset_cancel<T>(a: Multiset<T>, b: Multiset<T>, c: Multiset<T>)
    requires
        a.add(c) == b.add(c),
    ensures
        a == b,
{
    assert forall|x: T| a.count(x) == b.count(x) by {
        assert(a.add(c).count(x) == a.count(x) + c.count(x));
        assert(b.add(c).count(x) == b.count(x) + c.count(x));
    }
    assert(a =~= b);
}

/// An inner node stores what its children store.
pub proof fn lemma_items_parent<T: RTreeObject>(p: ParentNodeData<T>)
    ensures
        RTreeNode::Parent(p).items() == nodes_items(p.children@),
{
    let full = p.child_items();
    lemma_items_prefix(p.children@, full, p.children@.len());
    assert(full.take(full.len() as int) =~= full);
    assert(p.children@.take(p.children@.len() as int) =~= p.children@);
}

proof fn lemma_items_prefix<T: RTreeObject>(
    s: Seq<RTreeNode<T>>,
    m: Seq<Multiset<T>>,
    n: nat,
)
    requires
        m.len() == s.len(),
        n <= s.len(),
        forall|i: int| 0 <= i < s.len() ==> m[i] == s[i].items(),
    ensures
        multiset_sum(m.take(n as int)) == nodes_items(s.take(n as int)),
    decreases n,
{
    if n > 0 {
        lemma_items_prefix(s, m, (n - 1) as nat);
        assert(m.take(n as int).drop_last() =~= m.take(n - 1));
        assert(s.take(n as int).drop_last() =~= s.take(n - 1));
    }
}

pub proof fn lemma_nodes_items_push<T: RTreeObject>(s: Seq<RTreeNode<T>>, x: RTreeNode<T>)
    ensures
        nodes_items(s.push(x)) == nodes_items(s).add(x.items()),
{
    assert(s.push(x).drop_last() =~= s);
}

pub proof fn lemma_nodes_items_concat<T: RTreeObject>(a: Seq<RTreeNode<T>>, b: Seq<RTreeNode<T>>)
    ensures
        nodes_items(a + b) == nodes_items(a).add(nodes_items(b)),
    decreases b.len(),
{
    if b.len() == 0 {
        assert(a + b =~= a);
        assert(nodes_items(a).add(nodes_items(b)) =~= nodes_items(a));
    } else {
        lemma_nodes_items_concat(a, b.drop_last());
        assert((a + b).drop_last() =~= a + b.drop_last());
        assert(nodes_items(a + b) =~= nodes_items(a).add(nodes_items(b)));
    }
}

pub proof fn lemma_nodes_items_single<T: RTreeObject>(x: RTreeNode<T>)
    ensures
        nodes_items(seq![x]) == x.items(),
{
    assert(seq![x].drop_last() =~= Seq::<RTreeNode<T>>::empty());
    assert(nodes_items(Seq::<RTreeNode<T>>::empty()) =~= Multiset::empty());
    assert(seq![x].last() == x);
    assert(nodes_items(seq![x]) =~= x.items());
}

/// Splitting a sequence at `i` splits what it stores.
pub proof fn lemma_nodes_items_split<T: RTreeObject>(s: Seq<RTreeNode<T>>, i: int)
    requires
        0 <= i <= s.len(),
    ensures
        nodes_items(s) == nodes_items(s.take(i)).add(nodes_items(s.skip(i))),
{
    lemma_nodes_items_concat(s.take(i), s.skip(i));
    assert(s.take(i) + s.skip(i) =~= s);
}

pub proof fn lemma_nodes_items_remove<T: RTreeObject>(s: Seq<RTreeNode<T>>, i: int)
    requires
        0 <= i < s.len(),
    ensures
        nodes_items(s) == nodes_items(s.remove(i)).add(s[i].items()),
{
    lemma_nodes_items_split(s, i);
    lemma_nodes_items_split(s.skip(i), 1);
    lemma_nodes_items_concat(s.take(i), s.skip(i + 1));
    lemma_nodes_items_single(s[i]);
    assert(s.skip(i).take(1) =~= seq![s[i]]);
    assert(s.skip(i).skip(1) =~= s.skip(i + 1));
    assert(s.remove(i) =~= s.take(i) + s.skip(i + 1));
    assert(nodes_items(s) =~= nodes_items(s.remove(i)).add(s[i].items()));
}

pub proof fn lemma_nodes_items_update<T: RTreeObject>(
    s: Seq<RTreeNode<T>>,
    i: int,
    x: RTreeNode<T>,
)
    requires
        0 <= i < s.len(),
    ensures
        nodes_items(s.update(i, x)).add(s[i].items()) == nodes_items(s).add(x.items()),
{
    lemma_nodes_items_remove(s, i);
    lemma_nodes_items_remove(s.update(i, x), i);
    assert(s.update(i, x).remove(i) =~= s.remove(i));
    assert(nodes_items(s.update(i, x)).add(s[i].items()) =~= nodes_items(s).add(x.items()));
}

/// An object stored below a sequence of nodes is stored below one of them.
pub proof fn lemma_nodes_items_member<T: RTreeObject>(s: Seq<RTreeNode<T>>, t: T) -> (i: int)
    requires
        nodes_items(s).count(t) > 0,
    ensures
        0 <= i < s.len(),
        s[i].items().count(t) > 0,
    decreases s.len(),
{
    if s.last().items().count(t) > 0 {
        s.len() - 1
    } else {
        lemma_nodes_items_member(s.drop_last(), t)
    }
}

/// The union of the envelopes of a sequence of nodes holds each of them.
pub proof fn lemma_nodes_envelope_contains<T: RTreeObject>(s: Seq<RTreeNode<T>>, i: int)
    requires
        0 <= i < s.len(),
    ensures
        nodes_envelope(s).contains_envelope_spec(s[i].envelope_spec()),
    decreases s.len(),
{
    lemma_merged_contains(nodes_envelope(s.drop_last()), s.last().envelope_spec());
    if i < s.len() - 1 {
        lemma_nodes_envelope_contains(s.drop_last(), i);
    }
}

/// The envelope of a well formed subtree holds the envelope of every object
/// stored in it.
pub proof fn lemma_envelope_covers<T: RTreeObject>(
    node: RTreeNode<T>,
    h: nat,
    params: RTreeParams,
    t: T,
)
    requires
        node.wf_at(h, params),
        node.items().count(t) > 0,
    ensures
        node.envelope_spec().contains_envelope_spec(t.envelope_spec()),
    decreases h, 1nat,
{
    match node {
        RTreeNode::Leaf(x) => {
            assert(x == t);
        },
        RTreeNode::Parent(p) => {
            lemma_items_parent(p);
            lemma_parent_covers(p, h, params.min_size as nat, params, t);
        },
    }
}

/// The envelope of a well formed inner node holds the envelope of every
/// object stored below it.
pub proof fn lemma_parent_covers<T: RTreeObject>(
    p: ParentNodeData<T>,
    h: nat,
    lo: nat,
    params: RTreeParams,
    t: T,
)
    requires
        p.wf_parent(h, lo, params),
        p.items().count(t) > 0,
    ensures
        p.envelope.contains_envelope_spec(t.envelope_spec()),
    decreases h, 0nat,
{
    let i = lemma_nodes_items_member(p.children@, t);
    lemma_envelope_covers(p.children@[i], (h - 1) as nat, params, t);
    lemma_nodes_envelope_contains(p.children@, i);
}


/// Every node of `s` is a well formed subtree of height `h`.
pub open spec fn all_wf<T: RTreeObject>(s: Seq<RTreeNode<T>>, h: nat, params: RTreeParams) -> bool {
    forall|i: int| 0 <= i < s.len() ==> (#[trigger] s[i]).wf_at(h, params)
}

/// Reordering nodes does not change what they store.
pub proof fn lemma_permutation_items<T: RTreeObject>(a: Seq<RTreeNode<T>>, b: Seq<RTreeNode<T>>)
    requires
        a.to_multiset() == b.to_multiset(),
    ensures
        nodes_items(a) == nodes_items(b),
        a.len() == b.len(),
    decreases a.len(),
{
    crate::sort::lemma_same_elements_len(a, b);
    if a.len() > 0 {
        let j = crate::sort::lemma_same_elements_index(a, b, a.len() - 1);
        a.to_multiset_ensures();
        b.to_multiset_ensures();
        assert(a.drop_last() =~= a.remove(a.len() - 1));
        lemma_permutation_items(a.drop_last(), b.remove(j));
        lemma_nodes_items_remove(b, j);
    }
}

/// Reordering well formed nodes leaves them well formed.
pub proof fn lemma_permutation_wf<T: RTreeObject>(
    a: Seq<RTreeNode<T>>,
    b: Seq<RTreeNode<T>>,
    h: nat,
    params: RTreeParams,
)
    requires
        a.to_multiset() == b.to_multiset(),
        all_wf(a, h, params),
    ensures
        all_wf(b, h, params),
{
    assert forall|i: int| 0 <= i < b.len() implies (#[trigger] b[i]).wf_at(h, params) by {
        let j = crate::sort::lemma_same_elements_index(b, a, i);
        assert(a[j].wf_at(h, params));
    }
}


/// How many children the root has at least: two where it is above the lowest
/// level of inner nodes, else none.
pub open spec fn root_min(h: nat) -> nat {
    if h >= 2 {
        2
    } else {
        0
    }
}

/// Two nodes of a sequence store no more than the whole sequence.
proof fn lemma_two_children<T: RTreeObject>(s: Seq<RTreeNode<T>>)
    requires
        s.len() >= 2,
    ensures
        nodes_items(s).len() >= s[0].items().len() + s[1].items().len(),
{
    lemma_nodes_items_remove(s, 0);
    lemma_nodes_items_remove(s.remove(0), 0);
    assert(s.remove(0)[0] == s[1]);
}

/// A well formed subtree of height `h` stores at least `2^h` objects.
pub proof fn lemma_min_items<T: RTreeObject>(node: RTreeNode<T>, h: nat, params: RTreeParams)
    requires
        params.is_valid(),
        node.wf_at(h, params),
    ensures
        node.items().len() >= vstd::arithmetic::power2::pow2(h),
    decreases h,
{
    vstd::arithmetic::power2::lemma2_to64();
    match node {
        RTreeNode::Leaf(t) => {},
        RTreeNode::Parent(p) => {
            lemma_items_parent(p);
            lemma_two_children(p.children@);
            lemma_min_items(p.children@[0], (h - 1) as nat, params);
            lemma_min_items(p.children@[1], (h - 1) as nat, params);
            vstd::arithmetic::power2::lemma_pow2_unfold(h);
        },
    }
}

/// A tree that stores no more objects than can be counted is at most 65
/// levels high.
pub proof fn lemma_height_bound<T: RTreeObject>(
    p: ParentNodeData<T>,
    h: nat,
    lo: nat,
    params: RTreeParams,
)
    requires
        params.is_valid(),
        p.wf_parent(h, lo, params),
        h >= 2 ==> lo >= 1,
        p.items().len() <= usize::MAX,
    ensures
        h <= 65,
{
    vstd::arithmetic::power2::lemma2_to64();
    if h > 65 {
        lemma_nodes_items_remove(p.children@, 0);
        lemma_min_items(p.children@[0], (h - 1) as nat, params);
        vstd::arithmetic::power2::lemma_pow2_strictly_increases(64, (h - 1) as nat);
    }
}

/// The total of a sequence of numbers.
pub open spec fn total(s: Seq<nat>) -> nat
    decreases s.len(),
{
    if s.len() == 0 {
        0
    } else {
        total(s.drop_last()) + s.last()
    }
}

/// How many steps of the search a subtree can take up: two for a leaf, and
/// for an inner node one more than its children together.
pub open spec fn node_weight<T: RTreeObject>(node: RTreeNode<T>) -> nat
    decreases node,
{
    match node {
        RTreeNode::Leaf(_) => 2,
        RTreeNode::Parent(p) => 1 + total(child_weights(p)),
    }
}

/// The weight of each child of `p`.
pub open spec fn child_weights<T: RTreeObject>(p: ParentNodeData<T>) -> Seq<nat>
    decreases p,
{
    Seq::new(
        p.children@.len(),
        |i: int|
            if 0 <= i < p.children@.len() {
                node_weight(p.children@[i])
            } else {
                0
            },
    )
}

/// The weights of the nodes of `s` together.
pub open spec fn nodes_weight<T: RTreeObject>(s: Seq<RTreeNode<T>>) -> nat
    decreases s.len(),
{
    if s.len() == 0 {
        0
    } else {
        nodes_weight(s.drop_last()) + node_weight(s.last())
    }
}

proof fn lemma_weight_prefix<T: RTreeObject>(s: Seq<RTreeNode<T>>, w: Seq<nat>, n: nat)
    requires
        w.len() == s.len(),
        n <= s.len(),
        forall|i: int| 0 <= i < s.len() ==> w[i] == node_weight(s[i]),
    ensures
        total(w.take(n as int)) == nodes_weight(s.take(n as int)),
    decreases n,
{
    if n > 0 {
        lemma_weight_prefix(s, w, (n - 1) as nat);
        assert(w.take(n as int).drop_last() =~= w.take(n - 1));
        assert(s.take(n as int).drop_last() =~= s.take(n - 1));
    }
}

/// An inner node weighs one more than its children.
pub proof fn lemma_weight_parent<T: RTreeObject>(p: ParentNodeData<T>)
    ensures
        node_weight(RTreeNode::Parent(p)) == 1 + nodes_weight(p.children@),
{
    let w = child_weights(p);
    lemma_weight_prefix(p.children@, w, p.children@.len());
    assert(w.take(w.len() as int) =~= w);
    assert(p.children@.take(p.children@.len() as int) =~= p.children@);
}

/// The first node of a row weighs its part.
pub proof fn lemma_weight_front<T: RTreeObject>(s: Seq<RTreeNode<T>>)
    requires
        s.len() > 0,
    ensures
        nodes_weight(s) == node_weight(s[0]) + nodes_weight(s.skip(1)),
    decreases s.len(),
{
    if s.len() == 1 {
        assert(s.drop_last() =~= Seq::<RTreeNode<T>>::empty());
        assert(s.skip(1) =~= Seq::<RTreeNode<T>>::empty());
    } else {
        lemma_weight_front(s.drop_last());
        assert(s.drop_last().skip(1) =~= s.skip(1).drop_last());
        assert(s.skip(1).last() == s.last());
        assert(s.drop_last()[0] == s[0]);
    }
}

} // verus!
