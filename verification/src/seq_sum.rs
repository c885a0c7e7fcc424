use crate::sort::{lemma_same_elements_index, lemma_same_elements_len};
use vstd::multiset::Multiset;
use vstd::prelude::*;

verus! {

/// The sum of `f` over the elements of `s`.
pub open spec fn sum_nat<A>(s: Seq<A>, f: spec_fn(A) -> nat) -> nat
    decreases s.len(),
{
    if s.len() == 0 {
        0
    } else {
        sum_nat(s.drop_last(), f) + f(s.last())
    }
}

/// The sum of the multisets that `f` gives for the elements of `s`.
pub open spec fn sum_multiset<A, T>(s: Seq<A>, f: spec_fn(A) -> Multiset<T>) -> Multiset<T>
    decreases s.len(),
{
    if s.len() == 0 {
        Multiset::empty()
    } else {
        sum_multiset(s.drop_last(), f).add(f(s.last()))
    }
}

pub proof fn lemma_sum_nat_remove<A>(s: Seq<A>, f: spec_fn(A) -> nat, i: int)
    requires
        0 <= i < s.len(),
    ensures
        sum_nat(s, f) == sum_nat(s.remove(i), f) + f(s[i]),
    decreases s.len(),
{
    if i == s.len() - 1 {
        assert(s.remove(i) =~= s.drop_last());
    } else {
        lemma_sum_nat_remove(s.drop_last(), f, i);
        assert(s.remove(i).drop_last() =~= s.drop_last().remove(i));
        assert(s.remove(i).last() == s.last());
    }
}

pub proof fn lemma_sum_multiset_remove<A, T>(s: Seq<A>, f: spec_fn(A) -> Multiset<T>, i: int)
    requires
        0 <= i < s.len(),
    ensures
        sum_multiset(s, f) == sum_multiset(s.remove(i), f).add(f(s[i])),
    decreases s.len(),
{
    if i == s.len() - 1 {
        assert(s.remove(i) =~= s.drop_last());
    } else {
        lemma_sum_multiset_remove(s.drop_last(), f, i);
        assert(s.remove(i).drop_last() =~= s.drop_last().remove(i));
        assert(s.remove(i).last() == s.last());
        assert(sum_multiset(s, f) =~= sum_multiset(s.remove(i), f).add(f(s[i])));
    }
}

/// The sum does not depend on the order of the elements.
pub proof fn lemma_sum_nat_permutation<A>(a: Seq<A>, b: Seq<A>, f: spec_fn(A) -> nat)
    requires
        a.to_multiset() == b.to_multiset(),
    ensures
        sum_nat(a, f) == sum_nat(b, f),
    decreases a.len(),
{
    lemma_same_elements_len(a, b);
    if a.len() > 0 {
        let j = lemma_same_elements_index(a, b, a.len() - 1);
        a.to_multiset_ensures();
        b.to_multiset_ensures();
        assert(a.drop_last() =~= a.remove(a.len() - 1));
        lemma_sum_nat_permutation(a.drop_last(), b.remove(j), f);
        lemma_sum_nat_remove(b, f, j);
    }
}

/// The sum does not depend on the order of the elements.
pub proof fn lemma_sum_multiset_permutation<A, T>(
    a: Seq<A>,
    b: Seq<A>,
    f: spec_fn(A) -> Multiset<T>,
)
    requires
        a.to_multiset() == b.to_multiset(),
    ensures
        sum_multiset(a, f) == sum_multiset(b, f),
    decreases a.len(),
{
    lemma_same_elements_len(a, b);
    if a.len() > 0 {
        let j = lemma_same_elements_index(a, b, a.len() - 1);
        a.to_multiset_ensures();
        b.to_multiset_ensures();
        assert(a.drop_last() =~= a.remove(a.len() - 1));
        lemma_sum_multiset_permutation(a.drop_last(), b.remove(j), f);
        lemma_sum_multiset_remove(b, f, j);
    }
}

/// What the sum holds, one of the summands holds.
pub proof fn lemma_sum_multiset_member<A, T>(s: Seq<A>, f: spec_fn(A) -> Multiset<T>, t: T) -> (i:
    int)
    requires
        sum_multiset(s, f).count(t) > 0,
    ensures
        0 <= i < s.len(),
        f(s[i]).count(t) > 0,
    decreases s.len(),
{
    if f(s.last()).count(t) > 0 {
        s.len() - 1
    } else {
        lemma_sum_multiset_member(s.drop_last(), f, t)
    }
}

/// Sums over a sequence that has one element more than another.
pub proof fn lemma_sums_insert<A, T>(
    a: Seq<A>,
    b: Seq<A>,
    e: A,
    f: spec_fn(A) -> Multiset<T>,
    g: spec_fn(A) -> nat,
)
    requires
        b.to_multiset() == a.to_multiset().insert(e),
    ensures
        sum_multiset(b, f) == sum_multiset(a, f).add(f(e)),
        sum_nat(b, g) == sum_nat(a, g) + g(e),
{
    a.to_multiset_ensures();
    assert(a.push(e).drop_last() =~= a);
    lemma_sum_multiset_permutation(b, a.push(e), f);
    lemma_sum_nat_permutation(b, a.push(e), g);
}

/// Sums over a sequence that has one element less than another.
pub proof fn lemma_sums_remove<A, T>(
    a: Seq<A>,
    b: Seq<A>,
    e: A,
    f: spec_fn(A) -> Multiset<T>,
    g: spec_fn(A) -> nat,
)
    requires
        a.to_multiset().count(e) > 0,
        b.to_multiset() == a.to_multiset().remove(e),
    ensures
        sum_multiset(a, f) == sum_multiset(b, f).add(f(e)),
        sum_nat(a, g) == sum_nat(b, g) + g(e),
{
    a.to_multiset_ensures();
    assert(a.contains(e));
    let i = choose|i: int| 0 <= i < a.len() && a[i] == e;
    lemma_sum_multiset_remove(a, f, i);
    lemma_sum_nat_remove(a, g, i);
    lemma_sum_multiset_permutation(b, a.remove(i), f);
    lemma_sum_nat_permutation(b, a.remove(i), g);
}

} // verus!
