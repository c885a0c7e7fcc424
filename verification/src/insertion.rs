use crate::aabb::{lemma_area_monotone, lemma_intersection_area_monotone, lemma_merged_contains, AABB};
use crate::node::{
    all_wf, envelope_for_children, lemma_items_parent, lemma_nodes_items_push,
    lemma_multiset_cancel, lemma_nodes_items_split, lemma_nodes_items_update, lemma_permutation_items,
    lemma_height_bound, lemma_nodes_items_single, lemma_permutation_wf, nodes_envelope,
    nodes_items, ParentNodeData, RTreeNode,
};
use crate::object::RTreeObject;
use crate::params::RTreeParams;
use crate::point::{lemma_square_bound, Point};
use crate::sort::{ascending, sort_by_key, SortKey};
use vstd::prelude::*;

verus! {

/// What the nodes of one level are ordered by.
pub enum NodeKey {
    /// The lower end of the envelope on an axis.
    Lower(usize),
    /// The upper end of the envelope on an axis.
    Upper(usize),
    /// The middle of the envelope on an axis.
    Center(usize),
    /// How far the middle of the envelope is from the middle of the given
    /// one, farthest first.
    Farthest(AABB),
}

/// The coordinate of `p` on `axis`; every axis but the first counts as the second.
pub open spec fn coord_at(p: Point, axis: usize) -> int {
    if axis == 0 {
        p[0] as int
    } else {
        p[1] as int
    }
}

/// Four times the squared distance between the midpoints of two envelopes.
pub open spec fn center_distance(a: AABB, b: AABB) -> int {
    let dx = (a.lower[0] + a.upper[0]) - (b.lower[0] + b.upper[0]);
    let dy = (a.lower[1] + a.upper[1]) - (b.lower[1] + b.upper[1]);
    dx * dx + dy * dy
}

fn coord(p: &Point, axis: usize) -> (r: i32)
    ensures
        r == coord_at(*p, axis),
{
    if axis == 0 {
        p[0]
    } else {
        p[1]
    }
}

fn center_distance_of(a: &AABB, b: &AABB) -> (r: i128)
    ensures
        r == center_distance(*a, *b),
        0 <= r,
{
    let dx: i128 = (a.lower[0] as i128 + a.upper[0] as i128) - (b.lower[0] as i128
        + b.upper[0] as i128);
    let dy: i128 = (a.lower[1] as i128 + a.upper[1] as i128) - (b.lower[1] as i128
        + b.upper[1] as i128);
    assert(0 <= dx * dx <= 0x4_0000_0000 * 0x4_0000_0000) by (nonlinear_arith)
        requires
            -0x4_0000_0000 < dx < 0x4_0000_0000,
    ;
    assert(0 <= dy * dy <= 0x4_0000_0000 * 0x4_0000_0000) by (nonlinear_arith)
        requires
            -0x4_0000_0000 < dy < 0x4_0000_0000,
    ;
    dx * dx + dy * dy
}

impl<T: RTreeObject> SortKey<RTreeNode<T>> for NodeKey {
    open spec fn key_spec(&self, v: RTreeNode<T>) -> int {
        let e = v.envelope_spec();
        match *self {
            NodeKey::Lower(axis) => coord_at(e.lower, axis),
            NodeKey::Upper(axis) => coord_at(e.upper, axis),
            NodeKey::Center(axis) => coord_at(e.lower, axis) + coord_at(e.upper, axis),
            NodeKey::Farthest(from) => -center_distance(e, from),
        }
    }

    fn key(&self, v: &RTreeNode<T>) -> (k: i128) {
        let e = v.envelope();
        match self {
            NodeKey::Lower(axis) => coord(&e.lower, *axis) as i128,
            NodeKey::Upper(axis) => coord(&e.upper, *axis) as i128,
            NodeKey::Center(axis) => coord(&e.lower, *axis) as i128 + coord(
                &e.upper,
                *axis,
            ) as i128,
            NodeKey::Farthest(from) => 0 - center_distance_of(&e, from),
        }
    }
}

/// The union of the envelopes of `children[from..to]`.
pub fn range_envelope<T: RTreeObject>(children: &Vec<RTreeNode<T>>, from: usize, to: usize) -> (e:
    AABB)
    requires
        from <= to <= children@.len(),
    ensures
        e == nodes_envelope(children@.subrange(from as int, to as int)),
{
    let mut e = AABB::new_empty();
    let mut i: usize = from;
    while i < to
        invariant
            from <= i <= to <= children@.len(),
            e == nodes_envelope(children@.subrange(from as int, i as int)),
        decreases to - i,
    {
        proof {
            assert(children@.subrange(from as int, i + 1).drop_last() =~= children@.subrange(
                from as int,
                i as int,
            ));
        }
        let c = children[i].envelope();
        e.merge(&c);
        i += 1;
    }
    e
}

/// The area that `e` shares with the envelopes of the nodes of `s`, the node
/// at `skip` left out.
pub open spec fn overlap_with<T: RTreeObject>(s: Seq<RTreeNode<T>>, e: AABB, skip: int) -> int
    decreases s.len(),
{
    if s.len() == 0 {
        0
    } else {
        overlap_with(s.drop_last(), e, skip) + if s.len() - 1 == skip {
            0
        } else {
            e.intersection_area_spec(s.last().envelope_spec())
        }
    }
}

/// By how much the overlap of child `i` with its siblings grows when its
/// envelope is extended to hold `e`.
pub open spec fn overlap_enlargement<T: RTreeObject>(s: Seq<RTreeNode<T>>, i: int, e: AABB) -> int {
    overlap_with(s, s[i].envelope_spec().merged_spec(e), i) - overlap_with(
        s,
        s[i].envelope_spec(),
        i,
    )
}

/// By how much the area of child `i` grows when its envelope is extended to
/// hold `e`.
pub open spec fn area_enlargement<T: RTreeObject>(s: Seq<RTreeNode<T>>, i: int, e: AABB) -> int {
    s[i].envelope_spec().merged_spec(e).area_spec() - s[i].envelope_spec().area_spec()
}

/// What choosing child `i` for an object with envelope `e` costs: the overlap
/// enlargement (counted only just above the lowest inner nodes), the area
/// enlargement, and the area.
pub open spec fn subtree_cost<T: RTreeObject>(
    s: Seq<RTreeNode<T>>,
    i: int,
    e: AABB,
    with_overlap: bool,
) -> (int, int, int) {
    (
        if with_overlap {
            overlap_enlargement(s, i, e)
        } else {
            0
        },
        area_enlargement(s, i, e),
        s[i].envelope_spec().area_spec(),
    )
}

/// The order of costs: by the first component, then the second, then the third.
pub open spec fn cost_less(a: (int, int, int), b: (int, int, int)) -> bool {
    a.0 < b.0 || (a.0 == b.0 && (a.1 < b.1 || (a.1 == b.1 && a.2 < b.2)))
}

/// The first child of least cost.
pub open spec fn is_best_subtree<T: RTreeObject>(
    s: Seq<RTreeNode<T>>,
    best: int,
    e: AABB,
    with_overlap: bool,
) -> bool {
    &&& 0 <= best < s.len()
    &&& forall|j: int|
        0 <= j < s.len() ==> !cost_less(
            #[trigger] subtree_cost(s, j, e, with_overlap),
            subtree_cost(s, best, e, with_overlap),
        )
    &&& forall|j: int|
        0 <= j < best ==> cost_less(
            subtree_cost(s, best, e, with_overlap),
            #[trigger] subtree_cost(s, j, e, with_overlap),
        )
}

proof fn lemma_overlap_monotone<T: RTreeObject>(
    s: Seq<RTreeNode<T>>,
    small: AABB,
    large: AABB,
    skip: int,
)
    requires
        large.contains_envelope_spec(small),
    ensures
        0 <= overlap_with(s, small, skip) <= overlap_with(s, large, skip),
        overlap_with(s, large, skip) <= s.len() * (0xffff_fffe_0000_0001),
    decreases s.len(),
{
    if s.len() > 0 {
        lemma_overlap_monotone(s.drop_last(), small, large, skip);
        lemma_intersection_area_monotone(small, large, s.last().envelope_spec());
        let l = large.intersection_spec(s.last().envelope_spec());
        crate::point::lemma_product_bound(
            crate::aabb::side(l.lower[0] as int, l.upper[0] as int),
            crate::aabb::side(l.lower[1] as int, l.upper[1] as int),
        );
    }
}

fn overlap_of<T: RTreeObject>(children: &Vec<RTreeNode<T>>, e: &AABB, skip: usize) -> (r: u128)
    ensures
        r == overlap_with(children@, *e, skip as int),
{
    let mut sum: u128 = 0;
    let mut j: usize = 0;
    while j < children.len()
        invariant
            j <= children.len(),
            sum == overlap_with(children@.take(j as int), *e, skip as int),
            sum <= j * (0xffff_fffe_0000_0001),
        decreases children.len() - j,
    {
        proof {
            assert(children@.take(j + 1).drop_last() =~= children@.take(j as int));
        }
        if j != skip {
            let c = children[j].envelope();
            let a = e.intersection_area(&c);
            sum = sum + a as u128;
        }
        j += 1;
    }
    proof {
        assert(children@.take(j as int) =~= children@);
    }
    sum
}

fn cost_of<T: RTreeObject>(
    children: &Vec<RTreeNode<T>>,
    i: usize,
    e: &AABB,
    with_overlap: bool,
) -> (r: (u128, i128, i128))
    requires
        i < children@.len(),
    ensures
        (r.0 as int, r.1 as int, r.2 as int) == subtree_cost(children@, i as int, *e, with_overlap),
{
    let own = children[i].envelope();
    let grown = own.merged(e);
    proof {
        lemma_merged_contains(own, *e);
        lemma_area_monotone(own, grown);
        lemma_overlap_monotone(children@, own, grown, i as int);
    }
    let overlap: u128 = if with_overlap {
        let after = overlap_of(children, &grown, i);
        let before = overlap_of(children, &own, i);
        after - before
    } else {
        0
    };
    (overlap, grown.area() - own.area(), own.area())
}

fn cost_lt(a: &(u128, i128, i128), b: &(u128, i128, i128)) -> (r: bool)
    ensures
        r == cost_less((a.0 as int, a.1 as int, a.2 as int), (b.0 as int, b.1 as int, b.2 as int)),
{
    a.0 < b.0 || (a.0 == b.0 && (a.1 < b.1 || (a.1 == b.1 && a.2 < b.2)))
}

/// Chooses the child that an object with envelope `e` goes into: the first
/// one of least cost.
pub fn choose_subtree<T: RTreeObject>(
    node: &ParentNodeData<T>,
    e: &AABB,
    with_overlap: bool,
) -> (best: usize)
    requires
        node.children@.len() > 0,
    ensures
        is_best_subtree(node.children@, best as int, *e, with_overlap),
{
    let mut best: usize = 0;
    let mut best_cost = cost_of(&node.children, 0, e, with_overlap);
    let mut i: usize = 1;
    while i < node.children.len()
        invariant
            1 <= i <= node.children@.len(),
            best < i,
            (best_cost.0 as int, best_cost.1 as int, best_cost.2 as int) == subtree_cost(
                node.children@,
                best as int,
                *e,
                with_overlap,
            ),
            forall|j: int|
                0 <= j < i ==> !cost_less(
                    #[trigger] subtree_cost(node.children@, j, *e, with_overlap),
                    subtree_cost(node.children@, best as int, *e, with_overlap),
                ),
            forall|j: int|
                0 <= j < best ==> cost_less(
                    subtree_cost(node.children@, best as int, *e, with_overlap),
                    #[trigger] subtree_cost(node.children@, j, *e, with_overlap),
                ),
        decreases node.children@.len() - i,
    {
        let c = cost_of(&node.children, i, e, with_overlap);
        if cost_lt(&c, &best_cost) {
            best = i;
            best_cost = c;
        }
        i += 1;
    }
    best
}


/// The margins of the two groups that splitting `s` before place `k` gives.
pub open spec fn split_margin<T: RTreeObject>(s: Seq<RTreeNode<T>>, k: int) -> int {
    nodes_envelope(s.subrange(0, k)).margin_spec() + nodes_envelope(
        s.subrange(k, s.len() as int),
    ).margin_spec()
}

/// The sum of [`split_margin`] over the places from `lo` to `hi`.
pub open spec fn margin_total<T: RTreeObject>(s: Seq<RTreeNode<T>>, lo: int, hi: int) -> int
    decreases hi + 1 - lo,
{
    if hi < lo {
        0
    } else {
        margin_total(s, lo, hi - 1) + split_margin(s, hi)
    }
}

/// What splitting `s` before place `k` costs: the area that the two groups
/// share, and the sum of their areas.
pub open spec fn split_cost<T: RTreeObject>(s: Seq<RTreeNode<T>>, k: int) -> (int, int) {
    let a = nodes_envelope(s.subrange(0, k));
    let b = nodes_envelope(s.subrange(k, s.len() as int));
    (a.intersection_area_spec(b), a.area_spec() + b.area_spec())
}

/// The order of split costs: by the first component, then the second.
pub open spec fn pair_less(a: (int, int), b: (int, int)) -> bool {
    a.0 < b.0 || (a.0 == b.0 && a.1 < b.1)
}

/// The first place of least cost between `lo` and `hi`.
pub open spec fn is_best_split<T: RTreeObject>(
    s: Seq<RTreeNode<T>>,
    k: int,
    lo: int,
    hi: int,
) -> bool {
    &&& lo <= k <= hi
    &&& forall|j: int| lo <= j <= hi ==> !pair_less(#[trigger] split_cost(s, j), split_cost(s, k))
    &&& forall|j: int| lo <= j < k ==> pair_less(split_cost(s, k), #[trigger] split_cost(s, j))
}

/// The sum, over every place where `children` may be split, of the margins of
/// the two groups.
pub fn margin_sum<T: RTreeObject>(children: &Vec<RTreeNode<T>>, params: &RTreeParams) -> (r: i128)
    requires
        params.is_valid(),
        children@.len() == params.max_size + 1,
    ensures
        r == margin_total(
            children@,
            params.min_size as int,
            children@.len() - params.min_size,
        ),
        0 <= r <= children@.len() * 0x4_0000_0000,
{
    let n = children.len();
    let last = n - params.min_size;
    let mut sum: i128 = 0;
    let mut k: usize = params.min_size;
    while k <= last
        invariant
            params.min_size <= k <= last + 1,
            last == n - params.min_size,
            n == children@.len(),
            last < n,
            sum == margin_total(children@, params.min_size as int, k - 1),
            0 <= sum <= (k - params.min_size) * 0x4_0000_0000,
        decreases last + 1 - k,
    {
        let a = range_envelope(children, 0, k);
        let b = range_envelope(children, k, n);
        sum = sum + a.margin_value() + b.margin_value();
        k += 1;
    }
    sum
}

fn pair_lt(a: &(i128, i128), b: &(i128, i128)) -> (r: bool)
    ensures
        r == pair_less((a.0 as int, a.1 as int), (b.0 as int, b.1 as int)),
{
    a.0 < b.0 || (a.0 == b.0 && a.1 < b.1)
}

/// The place where `children` is best split, with what it costs there.
pub fn best_split_index<T: RTreeObject>(children: &Vec<RTreeNode<T>>, params: &RTreeParams) -> (r:
    (usize, (i128, i128)))
    requires
        params.is_valid(),
        children@.len() == params.max_size + 1,
    ensures
        is_best_split(
            children@,
            r.0 as int,
            params.min_size as int,
            children@.len() - params.min_size,
        ),
        ((r.1).0 as int, (r.1).1 as int) == split_cost(children@, r.0 as int),
{
    let n = children.len();
    let last = n - params.min_size;
    let mut best: usize = params.min_size;
    let a0 = range_envelope(children, 0, best);
    let b0 = range_envelope(children, best, n);
    let mut best_cost: (i128, i128) = (a0.intersection_area(&b0), a0.area() + b0.area());
    let mut k: usize = params.min_size + 1;
    while k <= last
        invariant
            params.min_size < k <= last + 1,
            last == n - params.min_size,
            n == children@.len(),
            last < n,
            params.min_size <= best < k,
            (best_cost.0 as int, best_cost.1 as int) == split_cost(children@, best as int),
            forall|j: int|
                params.min_size <= j < k ==> !pair_less(
                    #[trigger] split_cost(children@, j),
                    split_cost(children@, best as int),
                ),
            forall|j: int|
                params.min_size <= j < best ==> pair_less(
                    split_cost(children@, best as int),
                    #[trigger] split_cost(children@, j),
                ),
        decreases last + 1 - k,
    {
        let a = range_envelope(children, 0, k);
        let b = range_envelope(children, k, n);
        let c: (i128, i128) = (a.intersection_area(&b), a.area() + b.area());
        if pair_lt(&c, &best_cost) {
            best = k;
            best_cost = c;
        }
        k += 1;
    }
    (best, best_cost)
}

/// The nodes of `row` are the nodes of `all`, in ascending order of `key`.
pub open spec fn arranged<T: RTreeObject>(
    row: Seq<RTreeNode<T>>,
    all: Seq<RTreeNode<T>>,
    key: NodeKey,
) -> bool {
    row.to_multiset() == all.to_multiset() && ascending(row, key)
}

/// How good an axis is for a split: the sum of the margins of the two groups
/// over every place where the nodes may be split, for the nodes in the order
/// of their lower ends and in the order of their upper ends.
pub open spec fn axis_margin<T: RTreeObject>(
    by_lower: Seq<RTreeNode<T>>,
    by_upper: Seq<RTreeNode<T>>,
    params: RTreeParams,
) -> int {
    margin_total(by_lower, params.min_size as int, by_lower.len() - params.min_size)
        + margin_total(by_upper, params.min_size as int, by_upper.len() - params.min_size)
}

/// The axis `axis` is the first whose margin is least, for some way of
/// putting the nodes of `all` in the order of their lower ends and of their
/// upper ends along each axis.
pub open spec fn is_split_axis<T: RTreeObject>(
    all: Seq<RTreeNode<T>>,
    axis: int,
    params: RTreeParams,
) -> bool {
    exists|rows: Seq<(Seq<RTreeNode<T>>, Seq<RTreeNode<T>>)>|
        #![trigger rows.len()]
        {
            &&& rows.len() == 2
            &&& 0 <= axis < 2
            &&& forall|a: int|
                0 <= a < 2 ==> arranged((#[trigger] rows[a]).0, all, NodeKey::Lower(a as usize))
                    && arranged(rows[a].1, all, NodeKey::Upper(a as usize))
            &&& forall|a: int|
                0 <= a < 2 ==> axis_margin(rows[axis].0, rows[axis].1, params) <= axis_margin(
                    (#[trigger] rows[a]).0,
                    rows[a].1,
                    params,
                )
            &&& forall|a: int|
                0 <= a < axis ==> axis_margin(rows[axis].0, rows[axis].1, params) < axis_margin(
                    (#[trigger] rows[a]).0,
                    rows[a].1,
                    params,
                )
        }
}

/// The two groups `first` and `second` are a split of the nodes of `all`:
/// along the axis of least margin, the nodes in the order of their lower or
/// of their upper ends, whichever allows the split of less cost (the lower
/// ends where both allow the same), cut at the first place of least cost.
pub open spec fn is_split_of<T: RTreeObject>(
    all: Seq<RTreeNode<T>>,
    first: Seq<RTreeNode<T>>,
    second: Seq<RTreeNode<T>>,
    params: RTreeParams,
) -> bool {
    exists|
        axis: usize,
        by_lower: Seq<RTreeNode<T>>,
        by_upper: Seq<RTreeNode<T>>,
        at_lower: int,
        at_upper: int,
        row: Seq<RTreeNode<T>>,
        k: int,
    |
        #![trigger arranged(by_lower, all, NodeKey::Lower(axis)), arranged(by_upper, all, NodeKey::Upper(axis)), split_cost(by_lower, at_lower), split_cost(by_upper, at_upper), row.take(k)]
        {
            &&& is_split_axis(all, axis as int, params)
            &&& arranged(by_lower, all, NodeKey::Lower(axis))
            &&& arranged(by_upper, all, NodeKey::Upper(axis))
            &&& is_best_split(
                by_lower,
                at_lower,
                params.min_size as int,
                all.len() - params.min_size,
            )
            &&& is_best_split(
                by_upper,
                at_upper,
                params.min_size as int,
                all.len() - params.min_size,
            )
            &&& if pair_less(split_cost(by_upper, at_upper), split_cost(by_lower, at_lower)) {
                row == by_upper && k == at_upper
            } else {
                arranged(row, all, NodeKey::Lower(axis))
            }
            &&& is_best_split(row, k, params.min_size as int, all.len() - params.min_size)
            &&& first == row.take(k)
            &&& second == row.skip(k)
        }
}

/// The nodes of `taken` are those of the nodes of `all` whose midpoints are
/// farthest from the middle of the envelope of all, farthest first, and the
/// nodes of `kept` are the others.
pub open spec fn is_farthest_of<T: RTreeObject>(
    all: Seq<RTreeNode<T>>,
    taken: Seq<RTreeNode<T>>,
    kept: Seq<RTreeNode<T>>,
) -> bool {
    exists|row: Seq<RTreeNode<T>>|
        #![trigger row.take(taken.len() as int)]
        arranged(row, all, NodeKey::Farthest(nodes_envelope(all))) && taken == row.take(
            taken.len() as int,
        ) && kept == row.skip(taken.len() as int)
}

/// Splits a node that has one child too many in two: along the axis where
/// the margins are least, at the place where the two groups overlap least.
pub(crate) fn split<T: RTreeObject>(
    node: &mut ParentNodeData<T>,
    params: &RTreeParams,
    Ghost(h): Ghost<nat>,
) -> (sibling: RTreeNode<T>)
    requires
        params.is_valid(),
        h >= 1,
        old(node).children@.len() == params.max_size + 1,
        all_wf(old(node).children@, (h - 1) as nat, *params),
    ensures
        final(node).wf_parent(h, params.min_size as nat, *params),
        sibling.wf_at(h, *params),
        final(node).items().add(sibling.items()) == old(node).items(),
        is_split_of(
            old(node).children@,
            final(node).children@,
            sibling->Parent_0.children@,
            *params,
        ),
{
    let mut children: Vec<RTreeNode<T>> = Vec::new();
    std::mem::swap(&mut node.children, &mut children);
    let ghost orig = children@;
    let ghost mut rows: Seq<(Seq<RTreeNode<T>>, Seq<RTreeNode<T>>)> = Seq::empty();
    let mut best_axis: usize = 0;
    let mut best_margin: i128 = 0;
    let mut axis: usize = 0;
    while axis < 2
        invariant
            axis <= 2,
            axis == 0 ==> best_axis == 0,
            axis > 0 ==> best_axis < axis,
            params.is_valid(),
            children@.to_multiset() == orig.to_multiset(),
            orig.len() == params.max_size + 1,
            rows.len() == axis,
            forall|a: int|
                0 <= a < axis ==> arranged((#[trigger] rows[a]).0, orig, NodeKey::Lower(a as usize))
                    && arranged(rows[a].1, orig, NodeKey::Upper(a as usize)),
            axis > 0 ==> best_margin == axis_margin(
                rows[best_axis as int].0,
                rows[best_axis as int].1,
                *params,
            ),
            forall|a: int|
                0 <= a < axis ==> best_margin <= axis_margin(
                    (#[trigger] rows[a]).0,
                    rows[a].1,
                    *params,
                ),
            forall|a: int|
                0 <= a < best_axis ==> best_margin < axis_margin(
                    (#[trigger] rows[a]).0,
                    rows[a].1,
                    *params,
                ),
        decreases 2 - axis,
    {
        children = sort_by_key(children, &NodeKey::Lower(axis));
        let ghost lower_row = children@;
        proof {
            crate::sort::lemma_same_elements_len(children@, orig);
        }
        let by_lower = margin_sum(&children, params);
        children = sort_by_key(children, &NodeKey::Upper(axis));
        let ghost upper_row = children@;
        proof {
            crate::sort::lemma_same_elements_len(children@, orig);
        }
        let by_upper = margin_sum(&children, params);
        let ghost had = rows;
        proof {
            rows = had.push((lower_row, upper_row));
            assert forall|a: int| 0 <= a < rows.len() implies arranged(
                (#[trigger] rows[a]).0,
                orig,
                NodeKey::Lower(a as usize),
            ) && arranged(rows[a].1, orig, NodeKey::Upper(a as usize)) by {
                if a < had.len() {
                    assert(rows[a] == had[a]);
                }
            }
            assert(forall|a: int| 0 <= a < had.len() ==> rows[a] == had[a]);
        }
        if axis == 0 || by_lower + by_upper < best_margin {
            best_axis = axis;
            best_margin = by_lower + by_upper;
        }
        axis += 1;
    }
    proof {
        assert(is_split_axis(orig, best_axis as int, *params));
    }
    children = sort_by_key(children, &NodeKey::Lower(best_axis));
    let ghost by_lower = children@;
    proof {
        crate::sort::lemma_same_elements_len(children@, orig);
    }
    let lower_best = best_split_index(&children, params);
    children = sort_by_key(children, &NodeKey::Upper(best_axis));
    let ghost by_upper = children@;
    proof {
        crate::sort::lemma_same_elements_len(children@, orig);
    }
    let upper_best = best_split_index(&children, params);
    let k = if pair_lt(&upper_best.1, &lower_best.1) {
        upper_best.0
    } else {
        children = sort_by_key(children, &NodeKey::Lower(best_axis));
        proof {
            crate::sort::lemma_same_elements_len(children@, orig);
        }
        best_split_index(&children, params).0
    };
    let ghost sorted = children@;
    let second = children.split_off(k);
    proof {
        lemma_permutation_items(sorted, orig);
        lemma_permutation_wf(orig, sorted, (h - 1) as nat, *params);
        lemma_nodes_items_split(sorted, k as int);
        assert(sorted.take(k as int) =~= children@);
        assert(sorted.skip(k as int) =~= second@);
    }
    node.children = children;
    node.envelope = envelope_for_children(&node.children);
    let sibling = ParentNodeData::new_parent(second);
    proof {
        lemma_items_parent(sibling);
        assert forall|i: int| 0 <= i < node.children@.len() implies (
        #[trigger] node.children@[i]).wf_at((h - 1) as nat, *params) by {
            assert(node.children@[i] == sorted[i]);
        }
        assert forall|i: int| 0 <= i < sibling.children@.len() implies (
        #[trigger] sibling.children@[i]).wf_at((h - 1) as nat, *params) by {
            assert(sibling.children@[i] == sorted[k + i]);
        }
        assert(arranged(by_lower, orig, NodeKey::Lower(best_axis)));
        assert(arranged(by_upper, orig, NodeKey::Upper(best_axis)));
        assert(node.children@ == sorted.take(k as int));
        assert(sibling.children@ == sorted.skip(k as int));
        assert(is_split_of(orig, node.children@, sibling.children@, *params));
    }
    RTreeNode::Parent(sibling)
}

/// Takes out of a node that has one child too many the children whose
/// midpoints are farthest from the node's own, `reinsertion_count` of them,
/// farthest first.
pub(crate) fn take_farthest<T: RTreeObject>(
    node: &mut ParentNodeData<T>,
    params: &RTreeParams,
    Ghost(h): Ghost<nat>,
) -> (removed: Vec<RTreeNode<T>>)
    requires
        params.is_valid(),
        h >= 1,
        old(node).children@.len() == params.max_size + 1,
        all_wf(old(node).children@, (h - 1) as nat, *params),
    ensures
        final(node).wf_parent(h, params.min_size as nat, *params),
        removed@.len() == params.reinsertion_count,
        all_wf(removed@, (h - 1) as nat, *params),
        final(node).items().add(nodes_items(removed@)) == old(node).items(),
        is_farthest_of(old(node).children@, removed@, final(node).children@),
{
    let mut children: Vec<RTreeNode<T>> = Vec::new();
    std::mem::swap(&mut node.children, &mut children);
    let ghost orig = children@;
    let whole = envelope_for_children(&children);
    children = sort_by_key(children, &NodeKey::Farthest(whole));
    let ghost sorted = children@;
    proof {
        crate::sort::lemma_same_elements_len(sorted, orig);
    }
    let kept = children.split_off(params.reinsertion_count);
    proof {
        lemma_permutation_items(sorted, orig);
        lemma_permutation_wf(orig, sorted, (h - 1) as nat, *params);
        lemma_nodes_items_split(sorted, params.reinsertion_count as int);
        assert(sorted.take(params.reinsertion_count as int) =~= children@);
        assert(sorted.skip(params.reinsertion_count as int) =~= kept@);
        assert(nodes_items(kept@).add(nodes_items(children@)) =~= nodes_items(orig));
        assert(arranged(sorted, orig, NodeKey::Farthest(nodes_envelope(orig))));
        assert(children@ == sorted.take(children@.len() as int));
        assert(kept@ == sorted.skip(children@.len() as int));
    }
    node.children = kept;
    node.envelope = envelope_for_children(&node.children);
    proof {
        assert forall|i: int| 0 <= i < node.children@.len() implies (
        #[trigger] node.children@[i]).wf_at((h - 1) as nat, *params) by {
            assert(node.children@[i] == sorted[params.reinsertion_count + i]);
        }
        assert forall|i: int| 0 <= i < children@.len() implies (#[trigger] children@[i]).wf_at(
            (h - 1) as nat,
            *params,
        ) by {
            assert(children@[i] == sorted[i]);
        }
    }
    children
}


/// How many levels the table of [`ReinsertedLevels`] has.
pub const LEVELS: usize = 64;

/// The levels on which children were taken out for reinsertion during the
/// insertion that is under way. A level is the height of a node; a level
/// beyond the table counts as used.
pub struct ReinsertedLevels {
    pub flags: Vec<bool>,
}

/// How many entries of `s` are `false`.
pub open spec fn count_unset(s: Seq<bool>) -> nat
    decreases s.len(),
{
    if s.len() == 0 {
        0
    } else {
        count_unset(s.drop_last()) + if s.last() {
            0nat
        } else {
            1nat
        }
    }
}

proof fn lemma_count_unset_update(s: Seq<bool>, i: int)
    requires
        0 <= i < s.len(),
        !s[i],
    ensures
        count_unset(s.update(i, true)) + 1 == count_unset(s),
    decreases s.len(),
{
    if i == s.len() - 1 {
        assert(s.update(i, true).drop_last() =~= s.drop_last());
    } else {
        lemma_count_unset_update(s.drop_last(), i);
        assert(s.update(i, true).drop_last() =~= s.drop_last().update(i, true));
    }
}

impl ReinsertedLevels {
    /// How many levels may still take children out.
    pub open spec fn remaining(self) -> nat {
        count_unset(self.flags@)
    }

    /// Whether `level` has taken children out already.
    pub open spec fn is_used(self, level: int) -> bool {
        !(0 <= level < self.flags@.len()) || self.flags@[level]
    }

    /// A table with no level used.
    pub fn new() -> (r: ReinsertedLevels)
        ensures
            r.flags@.len() == LEVELS,
            forall|l: int| 0 <= l < LEVELS ==> !r.is_used(l),
    {
        let mut flags: Vec<bool> = Vec::new();
        while flags.len() < LEVELS
            invariant
                flags@.len() <= LEVELS,
                forall|l: int| 0 <= l < flags@.len() ==> !flags@[l],
            decreases LEVELS - flags@.len(),
        {
            flags.push(false);
        }
        ReinsertedLevels { flags }
    }

    /// Marks `level` as used and tells whether it was free before.
    pub fn try_mark(&mut self, level: usize) -> (fresh: bool)
        ensures
            fresh == !old(self).is_used(level as int),
            fresh ==> final(self).flags@ == old(self).flags@.update(level as int, true)
                && final(self).remaining() + 1 == old(self).remaining(),
            !fresh ==> *final(self) == *old(self),
    {
        if level < self.flags.len() && !self.flags[level] {
            proof {
                lemma_count_unset_update(self.flags@, level as int);
            }
            self.flags[level] = true;
            true
        } else {
            false
        }
    }
}

/// What inserting below a node left to its caller.
pub enum InsertionResult<T: RTreeObject> {
    /// Nothing: the subtree took the new node in.
    Complete,
    /// The node was split: its new sibling has to go in beside it.
    Split(RTreeNode<T>),
    /// Nodes of the given height were taken out and have to be inserted again.
    Reinsert(Vec<RTreeNode<T>>, usize),
}

/// Brings a node that may have one child too many back into shape: if it
/// overflows, its farthest children are taken out where its level has not
/// done so yet during this insertion and it is not the root; else it is split.
pub(crate) fn resolve_overflow<T: RTreeObject>(
    node: &mut ParentNodeData<T>,
    height: usize,
    is_root: bool,
    levels: &mut ReinsertedLevels,
    params: &RTreeParams,
    Ghost(lo): Ghost<nat>,
) -> (r: InsertionResult<T>)
    requires
        params.is_valid(),
        height >= 1,
        lo <= params.min_size,
        lo <= old(node).children@.len() <= params.max_size + 1,
        all_wf(old(node).children@, (height - 1) as nat, *params),
        old(node).envelope == nodes_envelope(old(node).children@),
    ensures
        match r {
            InsertionResult::Complete => {
                &&& *final(node) == *old(node)
                &&& final(node).wf_parent(height as nat, lo, *params)
                &&& *final(levels) == *old(levels)
            },
            InsertionResult::Split(s) => {
                &&& final(node).wf_parent(height as nat, params.min_size as nat, *params)
                &&& s.wf_at(height as nat, *params)
                &&& final(node).items().add(s.items()) == old(node).items()
                &&& *final(levels) == *old(levels)
            },
            InsertionResult::Reinsert(v, lvl) => {
                &&& !is_root
                &&& lvl + 1 == height
                &&& final(node).wf_parent(height as nat, params.min_size as nat, *params)
                &&& all_wf(v@, lvl as nat, *params)
                &&& final(node).items().add(nodes_items(v@)) == old(node).items()
                &&& final(levels).remaining() < old(levels).remaining()
                &&& is_farthest_of(old(node).children@, v@, final(node).children@)
            },
        },
        r is Complete <==> old(node).children@.len() <= params.max_size,
        r is Reinsert <==> old(node).children@.len() > params.max_size && !is_root && !old(
            levels,
        ).is_used(height as int),
        r is Split ==> is_split_of(
            old(node).children@,
            final(node).children@,
            r->Split_0->Parent_0.children@,
            *params,
        ),
        final(levels).remaining() <= old(levels).remaining(),
        final(levels).flags@.len() == old(levels).flags@.len(),
{
    if node.children.len() <= params.max_size {
        return InsertionResult::Complete;
    }
    if !is_root && levels.try_mark(height) {
        let removed = take_farthest(node, params, Ghost(height as nat));
        InsertionResult::Reinsert(removed, height - 1)
    } else {
        let sibling = split(node, params, Ghost(height as nat));
        InsertionResult::Split(sibling)
    }
}

/// Inserts the subtree `t` of height `target` below `node`, a node of height
/// `height`: descends to the level just above `target`, by the child of least
/// cost on every level, adds `t` there and resolves every overflow on the way
/// back up.
pub(crate) fn recursive_insert<T: RTreeObject>(
    node: &mut ParentNodeData<T>,
    t: RTreeNode<T>,
    height: usize,
    target: usize,
    is_root: bool,
    levels: &mut ReinsertedLevels,
    params: &RTreeParams,
    Ghost(lo): Ghost<nat>,
) -> (r: InsertionResult<T>)
    requires
        params.is_valid(),
        target < height,
        lo <= params.min_size,
        height >= 2 ==> lo >= 1,
        old(node).wf_parent(height as nat, lo, *params),
        t.wf_at(target as nat, *params),
    ensures
        match r {
            InsertionResult::Complete => {
                &&& final(node).wf_parent(height as nat, lo, *params)
                &&& final(node).items() == old(node).items().add(t.items())
            },
            InsertionResult::Split(s) => {
                &&& final(node).wf_parent(height as nat, params.min_size as nat, *params)
                &&& s.wf_at(height as nat, *params)
                &&& final(node).items().add(s.items()) == old(node).items().add(t.items())
            },
            InsertionResult::Reinsert(v, lvl) => {
                &&& lvl < height
                &&& final(node).wf_parent(height as nat, lo, *params)
                &&& all_wf(v@, lvl as nat, *params)
                &&& final(node).items().add(nodes_items(v@)) == old(node).items().add(t.items())
                &&& final(levels).remaining() < old(levels).remaining()
            },
        },
        final(levels).remaining() <= old(levels).remaining(),
        final(levels).flags@.len() == old(levels).flags@.len(),
    decreases height,
{
    let ghost before = node.children@;
    if height == target + 1 {
        node.children.push(t);
        node.envelope = envelope_for_children(&node.children);
        proof {
            lemma_nodes_items_push(before, t);
        }
        return resolve_overflow(node, height, is_root, levels, params, Ghost(lo));
    }
    let e = t.envelope();
    let i = choose_subtree(node, &e, height == 2);
    let below = match &mut node.children[i] {
        RTreeNode::Parent(p) => {
            proof {
                lemma_items_parent(*p);
            }
            let r = recursive_insert(
                p,
                t,
                height - 1,
                target,
                false,
                levels,
                params,
                Ghost(params.min_size as nat),
            );
            proof {
                lemma_items_parent(*p);
            }
            r
        },
        RTreeNode::Leaf(_) => vstd::pervasive::unreached(),
    };
    let ghost pb = before[i as int]->Parent_0;
    let ghost pa = node.children@[i as int]->Parent_0;
    proof {
        assert(before[i as int].wf_at((height - 1) as nat, *params));
        assert(before[i as int] == RTreeNode::Parent(pb));
        assert(node.children@[i as int] == RTreeNode::Parent(pa));
        lemma_items_parent(pa);
        lemma_items_parent(pb);
        assert(node.children@ =~= before.update(i as int, node.children@[i as int]));
        lemma_nodes_items_update(before, i as int, node.children@[i as int]);
        assert(node.children@[i as int].wf_at((height - 1) as nat, *params));
        assert forall|j: int| 0 <= j < node.children@.len() implies (
        #[trigger] node.children@[j]).wf_at((height - 1) as nat, *params) by {
            if j != i {
                assert(node.children@[j] == before[j]);
            }
        }
    }
    match below {
        InsertionResult::Complete => {
            node.envelope = envelope_for_children(&node.children);
            proof {
                assert(pa.items() == pb.items().add(t.items()));
                assert(nodes_items(before).add(pa.items()) =~= nodes_items(before).add(
                    t.items(),
                ).add(pb.items()));
                lemma_multiset_cancel(
                    node.items(),
                    nodes_items(before).add(t.items()),
                    pb.items(),
                );
            }
            InsertionResult::Complete
        },
        InsertionResult::Split(s) => {
            let ghost mid = node.children@;
            node.children.push(s);
            node.envelope = envelope_for_children(&node.children);
            proof {
                lemma_nodes_items_push(mid, s);
                assert(pa.items().add(s.items()) == pb.items().add(t.items()));
                assert(nodes_items(mid).add(s.items()).add(pb.items()) =~= nodes_items(mid).add(
                    pb.items(),
                ).add(s.items()));
                assert(nodes_items(before).add(pa.items()).add(s.items()) =~= nodes_items(
                    before,
                ).add(pa.items().add(s.items())));
                assert(nodes_items(before).add(pb.items().add(t.items())) =~= nodes_items(
                    before,
                ).add(t.items()).add(pb.items()));
                lemma_multiset_cancel(
                    node.items(),
                    nodes_items(before).add(t.items()),
                    pb.items(),
                );
            }
            resolve_overflow(node, height, is_root, levels, params, Ghost(lo))
        },
        InsertionResult::Reinsert(v, lvl) => {
            node.envelope = envelope_for_children(&node.children);
            proof {
                assert(pa.items().add(nodes_items(v@)) == pb.items().add(t.items()));
                assert(node.items().add(nodes_items(v@)).add(pb.items()) =~= node.items().add(
                    pb.items(),
                ).add(nodes_items(v@)));
                assert(nodes_items(before).add(pa.items()).add(nodes_items(v@)) =~= nodes_items(
                    before,
                ).add(pa.items().add(nodes_items(v@))));
                assert(nodes_items(before).add(pb.items().add(t.items())) =~= nodes_items(
                    before,
                ).add(t.items()).add(pb.items()));
                lemma_multiset_cancel(
                    node.items().add(nodes_items(v@)),
                    nodes_items(before).add(t.items()),
                    pb.items(),
                );
            }
            InsertionResult::Reinsert(v, lvl)
        },
    }
}


/// A subtree that waits to be inserted, with its height.
pub struct Pending<T: RTreeObject> {
    pub node: RTreeNode<T>,
    pub level: usize,
}

/// The objects stored in the subtrees of `s`.
pub open spec fn pending_items<T: RTreeObject>(s: Seq<Pending<T>>) -> vstd::multiset::Multiset<T>
    decreases s.len(),
{
    if s.len() == 0 {
        vstd::multiset::Multiset::empty()
    } else {
        pending_items(s.drop_last()).add(s.last().node.items())
    }
}

/// Every subtree of `s` is well formed, of the height it is listed with,
/// and lower than `height`.
pub open spec fn pending_wf<T: RTreeObject>(
    s: Seq<Pending<T>>,
    height: nat,
    params: RTreeParams,
) -> bool {
    forall|i: int|
        0 <= i < s.len() ==> (#[trigger] s[i]).node.wf_at(s[i].level as nat, params) && s[i].level
            < height
}

/// Inserts an object into the tree with the given root and height.
///
/// The object goes down to the lowest level of inner nodes. A node that
/// overflows on the way has its farthest children taken out and inserted
/// again, once per level, or else is split; when the root is split the tree
/// grows by one level.
pub(crate) fn insert_node<T: RTreeObject>(
    root: &mut ParentNodeData<T>,
    height: &mut usize,
    t: T,
    params: &RTreeParams,
    Ghost(lo): Ghost<nat>,
)
    requires
        params.is_valid(),
        old(root).wf_parent(*old(height) as nat, lo, *params),
        lo <= 2,
        *old(height) >= 2 ==> lo >= 1,
        old(root).items().len() < usize::MAX,
    ensures
        final(root).wf_parent(
            *final(height) as nat,
            if *final(height) > *old(height) {
                2
            } else {
                lo
            },
            *params,
        ),
        final(root).items() == old(root).items().insert(t),
        *final(height) >= *old(height),
{
    let ghost total = root.items().insert(t);
    let ghost mut cur_lo = lo;
    let mut levels = ReinsertedLevels::new();
    let mut pending: Vec<Pending<T>> = Vec::new();
    pending.push(Pending { node: RTreeNode::Leaf(t), level: 0 });
    proof {
        assert(pending@.drop_last() =~= Seq::<Pending<T>>::empty());
        assert(pending_items(pending@.drop_last()) =~= vstd::multiset::Multiset::empty());
        assert(pending_items(pending@) =~= vstd::multiset::Multiset::singleton(t));
        assert(root.items().add(pending_items(pending@)) =~= total);
    }
    while pending.len() > 0
        invariant
            params.is_valid(),
            *height >= *old(height),
            root.wf_parent(*height as nat, cur_lo, *params),
            cur_lo == if *height > *old(height) {
                2
            } else {
                lo
            },
            lo <= 2,
            *height >= 2 ==> cur_lo >= 1,
            pending_wf(pending@, *height as nat, *params),
            root.items().add(pending_items(pending@)) == total,
            total.len() <= usize::MAX,
        decreases levels.remaining(), pending@.len(),
    {
        let ghost pending_before = pending@;
        let ghost root_before = *root;
        let next = pending.pop().unwrap();
        proof {
            assert(pending@ =~= pending_before.drop_last());
            assert(pending_before[pending_before.len() - 1].node.wf_at(next.level as nat, *params));
            assert(root.items().len() <= total.len());
            lemma_height_bound(*root, *height as nat, cur_lo, *params);
        }
        let ghost rest = pending_items(pending@);
        let ghost added = next.node.items();
        let r = recursive_insert(
            root,
            next.node,
            *height,
            next.level,
            true,
            &mut levels,
            params,
            Ghost(cur_lo),
        );
        match r {
            InsertionResult::Complete => {
                proof {
                    assert(root.items().add(rest) =~= root_before.items().add(rest.add(added)));
                }
            },
            InsertionResult::Split(s) => {
                let ghost low = *root;
                let mut lower: Vec<RTreeNode<T>> = Vec::new();
                std::mem::swap(&mut root.children, &mut lower);
                let first = ParentNodeData { children: lower, envelope: root.envelope };
                proof {
                    assert(first == low);
                    lemma_items_parent(first);
                }
                root.children.push(RTreeNode::Parent(first));
                root.children.push(s);
                root.envelope = envelope_for_children(&root.children);
                *height = *height + 1;
                proof {
                    cur_lo = 2;
                    let pair = seq![RTreeNode::Parent(first), s];
                    assert(root.children@ =~= pair);
                    lemma_nodes_items_single(RTreeNode::Parent(first));
                    lemma_nodes_items_push(seq![RTreeNode::Parent(first)], s);
                    assert(seq![RTreeNode::Parent(first)].push(s) =~= pair);
                    assert(root.items() == low.items().add(s.items()));
                    assert(root.items().add(rest) =~= root_before.items().add(rest.add(added)));
                }
            },
            InsertionResult::Reinsert(v, lvl) => {
                let mut v = v;
                proof {
                    assert(root.items().add(nodes_items(v@)).add(rest) =~= root_before.items().add(
                        rest.add(added),
                    ));
                }
                while v.len() > 0
                    invariant
                        lvl < *height,
                        all_wf(v@, lvl as nat, *params),
                        pending_wf(pending@, *height as nat, *params),
                        root.items().add(nodes_items(v@)).add(pending_items(pending@)) == total,
                    decreases v@.len(),
                {
                    let ghost v_before = v@;
                    let ghost p_before = pending@;
                    let x = v.pop().unwrap();
                    pending.push(Pending { node: x, level: lvl });
                    proof {
                        assert(v@ =~= v_before.drop_last());
                        assert(v_before[v_before.len() - 1].wf_at(lvl as nat, *params));
                        assert(pending@.drop_last() =~= p_before);
                        assert(root.items().add(nodes_items(v@)).add(pending_items(pending@))
                            =~= root.items().add(nodes_items(v_before)).add(
                            pending_items(p_before),
                        ));
                        assert forall|i: int| 0 <= i < pending@.len() implies (
                        #[trigger] pending@[i]).node.wf_at(pending@[i].level as nat, *params)
                            && pending@[i].level < *height by {
                            if i < p_before.len() {
                                assert(pending@[i] == p_before[i]);
                            }
                        }
                    }
                }
                proof {
                    assert(nodes_items(v@) =~= vstd::multiset::Multiset::empty());
                    assert(root.items().add(pending_items(pending@)) =~= root.items().add(
                        nodes_items(v@),
                    ).add(pending_items(pending@)));
                }
            },
        }
    }
    proof {
        assert(pending_items(pending@) =~= vstd::multiset::Multiset::empty());
        assert(root.items() =~= root.items().add(pending_items(pending@)));
    }
}

} // verus!
