use crate::insertion::NodeKey;
use crate::node::{
    all_wf, lemma_items_parent, lemma_nodes_items_push, lemma_nodes_items_split,
    lemma_permutation_items, lemma_permutation_wf, nodes_items, root_min, ParentNodeData,
    RTreeNode,
};
use crate::object::RTreeObject;
use crate::params::RTreeParams;
use crate::sort::sort_by_key;
use vstd::arithmetic::div_mod::{
    lemma_div_multiples_vanish, lemma_fundamental_div_mod, lemma_mod_bound,
};
use vstd::prelude::*;

verus! {

/// `b` to the power of `e`.
pub open spec fn power(b: nat, e: nat) -> nat
    decreases e,
{
    if e == 0 {
        1
    } else {
        b * power(b, (e - 1) as nat)
    }
}

proof fn lemma_power_positive(b: nat, e: nat)
    requires
        b >= 1,
    ensures
        power(b, e) >= 1,
    decreases e,
{
    if e > 0 {
        lemma_power_positive(b, (e - 1) as nat);
        let p = power(b, (e - 1) as nat);
        assert(b * p >= 1) by (nonlinear_arith)
            requires
                b >= 1,
                p >= 1,
        ;
    }
}

/// With `max >= 2 * min`, every power of `max` but the zeroth is at least
/// twice the same power of `min`.
proof fn lemma_power_doubles(min: nat, max: nat, e: nat)
    requires
        min >= 1,
        max >= 2 * min,
        e >= 1,
    ensures
        power(max, e) >= 2 * power(min, e),
    decreases e,
{
    let pa = power(max, (e - 1) as nat);
    let pi = power(min, (e - 1) as nat);
    lemma_power_positive(min, (e - 1) as nat);
    lemma_power_positive(max, (e - 1) as nat);
    if e == 1 {
        assert(pa == 1 && pi == 1);
        assert(max * pa >= 2 * (min * pi)) by (nonlinear_arith)
            requires
                pa == 1,
                pi == 1,
                max >= 2 * min,
        ;
    } else {
        lemma_power_doubles(min, max, (e - 1) as nat);
        assert(max * pa >= 2 * (min * pi)) by (nonlinear_arith)
            requires
                pa >= 2 * pi,
                pi >= 1,
                max >= 2 * min,
                min >= 1,
        ;
    }
}

/// How the slabs of one level come out: with `k` slabs for `n` objects, no
/// slab is below `m` or above `cap`.
proof fn lemma_slab_sizes(n: int, k: int, cap: int, m: int, least: int)
    requires
        m >= 1,
        cap >= 2 * m,
        k >= 2,
        least >= 2,
        k * cap >= n,
        n >= least * m,
        k == least || (k - 1) * cap < n,
    ensures
        n / k >= m,
        n / k + (if n % k > 0 {
            1int
        } else {
            0int
        }) <= cap,
{
    let q = n / k;
    let r = n % k;
    lemma_fundamental_div_mod(n, k);
    lemma_mod_bound(n, k);
    assert(n == k * q + r);
    assert(n >= k * m) by (nonlinear_arith)
        requires
            m >= 1,
            cap >= 2 * m,
            k >= 2,
            n >= least * m,
            k == least || (k - 1) * cap < n,
    ;
    assert(q >= m) by (nonlinear_arith)
        requires
            n == k * q + r,
            0 <= r < k,
            n >= k * m,
            k >= 2,
    ;
    assert(q + (if r > 0 {
        1int
    } else {
        0int
    }) <= cap) by (nonlinear_arith)
        requires
            n == k * q + r,
            0 <= r < k,
            k * cap >= n,
            k >= 2,
    ;
}

/// The number of slabs is the least that keeps every slab within `cap`.
proof fn lemma_ceil(n: int, cap: int)
    requires
        cap >= 1,
        n >= 1,
    ensures
        (n / cap + (if n % cap > 0 {
            1int
        } else {
            0int
        })) * cap >= n,
        (n / cap + (if n % cap > 0 {
            1int
        } else {
            0int
        }) - 1) * cap < n,
        n / cap >= 0,
        n / cap + (if n % cap > 0 {
            1int
        } else {
            0int
        }) <= n,
{
    let q = n / cap;
    let r = n % cap;
    lemma_fundamental_div_mod(n, cap);
    lemma_mod_bound(n, cap);
    assert(n == cap * q + r);
    assert(q >= 0) by (nonlinear_arith)
        requires
            n == cap * q + r,
            0 <= r < cap,
            n >= 1,
    ;
    if r > 0 {
        assert((q + 1) * cap >= n && q * cap < n && q + 1 <= n) by (nonlinear_arith)
            requires
                n == cap * q + r,
                0 < r < cap,
                q >= 0,
        ;
    } else {
        assert(q * cap >= n && (q - 1) * cap < n && q <= n) by (nonlinear_arith)
            requires
                n == cap * q,
                cap >= 1,
                q >= 0,
        ;
    }
}

/// How many objects are left when `done` of `k` slabs are cut off a row of
/// `n`, the first `n % k` slabs one longer than `n / k`.
pub open spec fn left_after(n: int, k: int, done: int) -> int {
    n - done * (n / k) - (if done < n % k {
        done
    } else {
        n % k
    })
}

proof fn lemma_left_after(n: int, k: int, done: int)
    requires
        k >= 1,
        n >= 0,
        0 <= done <= k,
    ensures
        left_after(n, k, 0) == n,
        left_after(n, k, k) == 0,
        done < k ==> left_after(n, k, done + 1) == left_after(n, k, done) - (n / k + (if done < n
            % k {
            1int
        } else {
            0int
        })),
        done < k ==> left_after(n, k, done) >= n / k + (if done < n % k {
            1int
        } else {
            0int
        }),
{
    let q = n / k;
    let r = n % k;
    lemma_fundamental_div_mod(n, k);
    lemma_mod_bound(n, k);
    assert(n == k * q + r);
    assert(q >= 0) by (nonlinear_arith)
        requires
            n == k * q + r,
            0 <= r < k,
            n >= 0,
    ;
    assert(0 * q == 0);
    assert((done + 1) * q == done * q + q) by (nonlinear_arith);
    if done < k {
        assert(k * q - done * q >= q) by (nonlinear_arith)
            requires
                done < k,
                q >= 0,
        ;
    }
}

/// Into how many slabs `n` objects are cut: as few as can each be held by a
/// subtree of `cap` objects, and at least `least`.
pub open spec fn slab_count(n: int, cap: int, least: int) -> int {
    let needed = n / cap + if n % cap > 0 {
        1int
    } else {
        0int
    };
    if needed > least {
        needed
    } else {
        least
    }
}

/// Builds a subtree of height `height` over the leaves of `leaves`.
///
/// On the lowest level the leaves become the children of one node. Above it
/// they are ordered by the middle of their envelopes along one axis and cut
/// into slabs of equal length, as few as can each be held by a subtree one
/// level lower (`cap` objects), and at least `least`; each slab becomes a
/// child, built along the next axis.
pub(crate) fn partition<T: RTreeObject>(
    leaves: Vec<RTreeNode<T>>,
    height: usize,
    cap: usize,
    least: usize,
    axis: usize,
    params: &RTreeParams,
) -> (r: ParentNodeData<T>)
    requires
        params.is_valid(),
        height >= 1,
        cap == power(params.max_size as nat, (height - 1) as nat),
        all_wf(leaves@, 0, *params),
        leaves@.len() <= cap * params.max_size,
        leaves@.len() >= least * power(params.min_size as nat, (height - 1) as nat),
        height >= 2 ==> 2 <= least <= params.min_size,
        height == 1 ==> least <= params.min_size,
    ensures
        r.wf_parent(height as nat, least as nat, *params),
        r.items() == nodes_items(leaves@),
        height == 1 ==> r.children@ == leaves@,
        height >= 2 ==> r.children@.len() == slab_count(
            leaves@.len() as int,
            cap as int,
            least as int,
        ),
    decreases height,
{
    let ghost m = power(params.min_size as nat, (height - 1) as nat);
    if height == 1 {
        proof {
            assert(power(params.min_size as nat, 0) == 1);
            assert(power(params.max_size as nat, 0) == 1);
            assert(least * 1 == least);
            assert(1 * params.max_size == params.max_size);
        }
        return ParentNodeData::new_parent(leaves);
    }
    let n = leaves.len();
    let key = NodeKey::Center(axis);
    let mut row = sort_by_key(leaves, &key);
    proof {
        lemma_permutation_items(row@, leaves@);
        lemma_permutation_wf(leaves@, row@, 0, *params);
        lemma_power_positive(params.min_size as nat, (height - 1) as nat);
        lemma_power_positive(params.max_size as nat, (height - 1) as nat);
        lemma_power_doubles(params.min_size as nat, params.max_size as nat, (height - 1) as nat);
        assert(n >= least * m >= 2) by (nonlinear_arith)
            requires
                n >= least * m,
                least >= 2,
                m >= 1,
        ;
        lemma_ceil(n as int, cap as int);
    }
    let needed = n / cap + if n % cap > 0 {
        1
    } else {
        0
    };
    let k = if needed > least {
        needed
    } else {
        least
    };
    proof {
        assert(needed <= params.max_size) by (nonlinear_arith)
            requires
                (needed - 1) * cap < n,
                n <= cap * params.max_size,
                cap >= 1,
        ;
        assert(k * cap >= n) by (nonlinear_arith)
            requires
                needed * cap >= n,
                k >= needed,
                cap >= 1,
        ;
        lemma_slab_sizes(n as int, k as int, cap as int, m as int, least as int);
        lemma_left_after(n as int, k as int, 0);
        let lower = power(params.max_size as nat, (height - 2) as nat);
        assert(power(params.max_size as nat, (height - 1) as nat) == params.max_size * lower);
        lemma_div_multiples_vanish(lower as int, params.max_size as int);
        lemma_power_positive(params.max_size as nat, (height - 2) as nat);
        assert(lower * params.max_size == params.max_size * lower) by (nonlinear_arith);
    }
    let q = n / k;
    let extra = n % k;
    let below = cap / params.max_size;
    let next_axis = if axis == 0 {
        1
    } else {
        0
    };
    let ghost sorted = row@;
    let mut children: Vec<RTreeNode<T>> = Vec::new();
    let mut done: usize = 0;
    proof {
        assert(nodes_items(children@).add(nodes_items(row@)) =~= nodes_items(sorted));
    }
    while done < k
        invariant
            params.is_valid(),
            height >= 2,
            done <= k,
            2 <= k <= params.max_size,
            q == n / k,
            extra == n % k,
            m == power(params.min_size as nat, (height - 1) as nat),
            m >= 1,
            q >= m,
            q + (if extra > 0 {
                1int
            } else {
                0int
            }) <= cap,
            cap == power(params.max_size as nat, (height - 1) as nat),
            below == power(params.max_size as nat, (height - 2) as nat),
            below * params.max_size == cap,
            children@.len() == done,
            row@.len() == left_after(n as int, k as int, done as int),
            all_wf(row@, 0, *params),
            all_wf(children@, (height - 1) as nat, *params),
            nodes_items(children@).add(nodes_items(row@)) == nodes_items(sorted),
        decreases k - done,
    {
        proof {
            lemma_left_after(n as int, k as int, done as int);
        }
        let size = if done < extra {
            q + 1
        } else {
            q
        };
        let ghost row_before = row@;
        let ghost children_before = children@;
        let rest = row.split_off(size);
        let slab = row;
        row = rest;
        proof {
            lemma_nodes_items_split(row_before, size as int);
            assert(row_before.take(size as int) =~= slab@);
            assert(row_before.skip(size as int) =~= row@);
            assert forall|i: int| 0 <= i < slab@.len() implies (#[trigger] slab@[i]).wf_at(
                0,
                *params,
            ) by {
                assert(slab@[i] == row_before[i]);
            }
            assert forall|i: int| 0 <= i < row@.len() implies (#[trigger] row@[i]).wf_at(
                0,
                *params,
            ) by {
                assert(row@[i] == row_before[size + i]);
            }
            assert(m == params.min_size * power(params.min_size as nat, (height - 2) as nat));
        }
        let child = partition(slab, height - 1, below, params.min_size, next_axis, params);
        proof {
            lemma_items_parent(child);
            lemma_nodes_items_push(children_before, RTreeNode::Parent(child));
        }
        children.push(RTreeNode::Parent(child));
        proof {
            assert(nodes_items(children@).add(nodes_items(row@)) =~= nodes_items(
                children_before,
            ).add(nodes_items(row_before)));
            assert forall|i: int| 0 <= i < children@.len() implies (#[trigger] children@[i]).wf_at(
                (height - 1) as nat,
                *params,
            ) by {
                if i < children_before.len() {
                    assert(children@[i] == children_before[i]);
                }
            }
        }
        done += 1;
    }
    proof {
        lemma_left_after(n as int, k as int, k as int);
        assert(nodes_items(row@) =~= vstd::multiset::Multiset::empty());
        assert(nodes_items(children@) =~= nodes_items(sorted));
    }
    ParentNodeData::new_parent(children)
}

/// The height `h` is the least at which a tree whose nodes have `max`
/// children at most can hold `n` objects.
pub open spec fn is_load_height(h: nat, n: nat, max: nat) -> bool {
    &&& h >= 1
    &&& n <= power(max, h)
    &&& h >= 2 ==> power(max, (h - 1) as nat) < n
}

/// The leaves that hold the objects of `s`, in order.
pub open spec fn leaves_of<T: RTreeObject>(s: Seq<T>) -> Seq<RTreeNode<T>> {
    Seq::new(s.len(), |i: int| RTreeNode::Leaf(s[i]))
}

/// The leaves of a row of objects store those objects.
pub proof fn lemma_leaves_items<T: RTreeObject>(s: Seq<T>)
    ensures
        nodes_items(leaves_of(s)) == s.to_multiset(),
    decreases s.len(),
{
    if s.len() == 0 {
        crate::sort::lemma_empty_to_multiset(s);
    } else {
        lemma_leaves_items(s.drop_last());
        s.drop_last().to_multiset_ensures();
        assert(s.drop_last().push(s.last()) =~= s);
        assert(leaves_of(s).drop_last() =~= leaves_of(s.drop_last()));
        assert(nodes_items(leaves_of(s)) =~= s.to_multiset());
    }
}

/// Puts every object of `elements` into a leaf of its own, in order.
pub fn wrap_leaves<T: RTreeObject>(elements: Vec<T>) -> (r: Vec<RTreeNode<T>>)
    ensures
        r@ == leaves_of(elements@),
{
    let mut elements = elements;
    let ghost all = elements@;
    let mut turned: Vec<T> = Vec::new();
    while elements.len() > 0
        invariant
            elements@.len() + turned@.len() == all.len(),
            elements@ == all.take(elements@.len() as int),
            forall|i: int| 0 <= i < turned@.len() ==> turned@[i] == all[all.len() - 1 - i],
        decreases elements@.len(),
    {
        let ghost before = elements@;
        let t = elements.pop().unwrap();
        turned.push(t);
        proof {
            assert(elements@ =~= all.take(elements@.len() as int));
            assert(t == all[before.len() - 1]);
        }
    }
    let mut leaves: Vec<RTreeNode<T>> = Vec::new();
    while turned.len() > 0
        invariant
            leaves@.len() + turned@.len() == all.len(),
            forall|i: int| 0 <= i < turned@.len() ==> turned@[i] == all[all.len() - 1 - i],
            forall|i: int| 0 <= i < leaves@.len() ==> leaves@[i] == RTreeNode::Leaf(all[i]),
        decreases turned@.len(),
    {
        let t = turned.pop().unwrap();
        leaves.push(RTreeNode::Leaf(t));
    }
    proof {
        assert(leaves@ =~= leaves_of(all));
    }
    leaves
}

/// Builds a tree over `elements`: its root, and its height.
///
/// The tree is as low as `max_size` allows. Up to `max_size` objects become
/// the children of the root, in the order given; more are cut into slabs
/// level by level, along the axes in turn.
pub(crate) fn bulk_load_with_params<T: RTreeObject>(elements: Vec<T>, params: &RTreeParams) -> (r: (
    ParentNodeData<T>,
    usize,
))
    requires
        params.is_valid(),
    ensures
        r.0.wf_parent(r.1 as nat, root_min(r.1 as nat), *params),
        r.0.items() == elements@.to_multiset(),
        is_load_height(r.1 as nat, elements@.len(), params.max_size as nat),
        elements@.len() <= params.max_size ==> r.0.children@ == leaves_of(elements@),
        elements@.len() > params.max_size ==> r.0.children@.len() == slab_count(
            elements@.len() as int,
            power(params.max_size as nat, (r.1 - 1) as nat) as int,
            2,
        ),
{
    let leaves = wrap_leaves(elements);
    proof {
        lemma_leaves_items(elements@);
    }
    let n = leaves.len();
    if n <= params.max_size {
        proof {
            assert(power(params.max_size as nat, 0) == 1);
            assert(power(params.min_size as nat, 0) == 1);
            assert(power(params.max_size as nat, 1) == params.max_size * power(
                params.max_size as nat,
                0,
            ));
            assert(params.max_size * 1 == params.max_size);
        }
        return (partition(leaves, 1, 1, 0, 0, params), 1);
    }
    let mut height: usize = 2;
    let mut cap: usize = params.max_size;
    proof {
        assert(power(params.max_size as nat, 0) == 1);
        assert(power(params.max_size as nat, 1) == params.max_size * power(
            params.max_size as nat,
            0,
        ));
        assert(params.max_size * 1 == params.max_size);
        assert(power(params.max_size as nat, 1) == params.max_size);
    }
    while cap <= (n - 1) / params.max_size
        invariant
            params.is_valid(),
            height >= 2,
            cap == power(params.max_size as nat, (height - 1) as nat),
            cap < n,
            height <= cap,
        decreases n - cap,
    {
        proof {
            let d = (n - 1) / (params.max_size as int);
            lemma_fundamental_div_mod(n - 1, params.max_size as int);
            lemma_mod_bound(n - 1, params.max_size as int);
            assert(cap * params.max_size <= n - 1) by (nonlinear_arith)
                requires
                    cap <= d,
                    n - 1 == params.max_size * d + (n - 1) % (params.max_size as int),
                    0 <= (n - 1) % (params.max_size as int),
                    params.max_size >= 1,
            ;
            assert(cap * params.max_size >= 2 * cap) by (nonlinear_arith)
                requires
                    params.max_size >= 2,
                    cap >= 0,
            ;
            assert(power(params.max_size as nat, height as nat) == params.max_size * power(
                params.max_size as nat,
                (height - 1) as nat,
            ));
            assert(cap * params.max_size == params.max_size * cap) by (nonlinear_arith);
        }
        cap = cap * params.max_size;
        height = height + 1;
    }
    proof {
        let d = (n - 1) / (params.max_size as int);
        lemma_fundamental_div_mod(n - 1, params.max_size as int);
        lemma_mod_bound(n - 1, params.max_size as int);
        assert(n <= cap * params.max_size) by (nonlinear_arith)
            requires
                cap > d,
                n - 1 == params.max_size * d + (n - 1) % (params.max_size as int),
                (n - 1) % (params.max_size as int) < params.max_size,
                params.max_size >= 1,
        ;
        lemma_power_doubles(params.min_size as nat, params.max_size as nat, (height - 1) as nat);
        assert(power(params.max_size as nat, height as nat) == params.max_size * power(
            params.max_size as nat,
            (height - 1) as nat,
        ));
        assert(cap * params.max_size == params.max_size * cap) by (nonlinear_arith);
    }
    (partition(leaves, height, cap, 2, 0, params), height)
}

} // verus!
