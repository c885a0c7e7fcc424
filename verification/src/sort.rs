use vstd::prelude::*;

verus! {

/// A way to order values of type `V`: by an integer key.
pub trait SortKey<V> {
    /// The key of `v`.
    spec fn key_spec(&self, v: V) -> int;

    fn key(&self, v: &V) -> (k: i128)
        ensures
            k == self.key_spec(*v),
    ;
}

/// The keys never decrease along `s`.
pub open spec fn ascending<V, K: SortKey<V>>(s: Seq<V>, k: K) -> bool {
    forall|i: int, j: int| 0 <= i <= j < s.len() ==> k.key_spec(s[i]) <= k.key_spec(s[j])
}

/// The keys never increase along `s`.
pub open spec fn descending<V, K: SortKey<V>>(s: Seq<V>, k: K) -> bool {
    forall|i: int, j: int| 0 <= i <= j < s.len() ==> k.key_spec(s[i]) >= k.key_spec(s[j])
}

/// A sequence without elements has no elements as a multiset either.
pub proof fn lemma_empty_to_multiset<V>(s: Seq<V>)
    requires
        s.len() == 0,
    ensures
        s.to_multiset() == vstd::multiset::Multiset::<V>::empty(),
{
    s.to_multiset_ensures();
    assert(forall|x: V| s.to_multiset().count(x) <= s.to_multiset().len());
    assert(s.to_multiset() =~= vstd::multiset::Multiset::<V>::empty());
}

/// Merges two ascending vectors into one.
fn merge<V, K: SortKey<V>>(a: Vec<V>, b: Vec<V>, k: &K) -> (r: Vec<V>)
    requires
        ascending(a@, *k),
        ascending(b@, *k),
    ensures
        ascending(r@, *k),
        r@.to_multiset() == a@.to_multiset().add(b@.to_multiset()),
{
    let ghost total = a@.to_multiset().add(b@.to_multiset());
    let mut a = a;
    let mut b = b;
    let mut rev: Vec<V> = Vec::new();
    proof {
        lemma_empty_to_multiset(rev@);
        assert(rev@.to_multiset().add(a@.to_multiset()).add(b@.to_multiset()) =~= total);
    }
    while a.len() > 0 || b.len() > 0
        invariant
            ascending(a@, *k),
            ascending(b@, *k),
            descending(rev@, *k),
            forall|i: int, j: int| 0 <= i < rev@.len() && 0 <= j < a@.len() ==> k.key_spec(rev@[i]) >= k.key_spec(a@[j]),
            forall|i: int, j: int| 0 <= i < rev@.len() && 0 <= j < b@.len() ==> k.key_spec(rev@[i]) >= k.key_spec(b@[j]),
            rev@.to_multiset().add(a@.to_multiset()).add(b@.to_multiset()) == total,
        decreases a@.len() + b@.len(),
    {
        let from_a = if b.len() == 0 {
            true
        } else if a.len() == 0 {
            false
        } else {
            k.key(&a[a.len() - 1]) >= k.key(&b[b.len() - 1])
        };
        let ghost a0 = a@;
        let ghost b0 = b@;
        let ghost r0 = rev@;
        if from_a {
            let x = a.pop().unwrap();
            rev.push(x);
            proof {
                assert(a@ =~= a0.remove(a0.len() - 1));
                a0.to_multiset_ensures();
                r0.to_multiset_ensures();
                assert(a0.contains(a0[a0.len() - 1]));
                assert(rev@.to_multiset().add(a@.to_multiset()).add(b@.to_multiset()) =~= total);
            }
        } else {
            let x = b.pop().unwrap();
            rev.push(x);
            proof {
                assert(b@ =~= b0.remove(b0.len() - 1));
                b0.to_multiset_ensures();
                r0.to_multiset_ensures();
                assert(b0.contains(b0[b0.len() - 1]));
                assert(rev@.to_multiset().add(a@.to_multiset()).add(b@.to_multiset()) =~= total);
            }
        }
    }
    let mut r: Vec<V> = Vec::new();
    proof {
        lemma_empty_to_multiset(r@);
        lemma_empty_to_multiset(a@);
        lemma_empty_to_multiset(b@);
        assert(r@.to_multiset().add(rev@.to_multiset()) =~= total);
    }
    while rev.len() > 0
        invariant
            ascending(r@, *k),
            descending(rev@, *k),
            forall|i: int, j: int| 0 <= i < r@.len() && 0 <= j < rev@.len() ==> k.key_spec(r@[i]) <= k.key_spec(rev@[j]),
            r@.to_multiset().add(rev@.to_multiset()) == total,
        decreases rev@.len(),
    {
        let ghost rev0 = rev@;
        let ghost r0 = r@;
        let x = rev.pop().unwrap();
        r.push(x);
        proof {
            assert(rev@ =~= rev0.remove(rev0.len() - 1));
            rev0.to_multiset_ensures();
            r0.to_multiset_ensures();
            assert(rev0.contains(rev0[rev0.len() - 1]));
            assert(r@.to_multiset().add(rev@.to_multiset()) =~= total);
        }
    }
    proof {
        lemma_empty_to_multiset(rev@);
        assert(r@.to_multiset() =~= total);
    }
    r
}

/// Orders `v` by key, ascending. Which of two values with equal keys comes
/// first is left open.
pub fn sort_by_key<V, K: SortKey<V>>(v: Vec<V>, k: &K) -> (r: Vec<V>)
    ensures
        ascending(r@, *k),
        r@.to_multiset() == v@.to_multiset(),
        r@.len() == v@.len(),
    decreases v@.len(),
{
    if v.len() <= 1 {
        return v;
    }
    let ghost total = v@.to_multiset();
    let mut left = v;
    let mut right: Vec<V> = Vec::new();
    let half = left.len() / 2;
    proof {
        lemma_empty_to_multiset(right@);
        assert(left@.to_multiset().add(right@.to_multiset()) =~= total);
    }
    while right.len() < half
        invariant
            left@.len() + right@.len() == v@.len(),
            half == v@.len() / 2,
            right@.len() <= half,
            left@.to_multiset().add(right@.to_multiset()) == total,
        decreases half - right@.len(),
    {
        let ghost l0 = left@;
        let ghost r0 = right@;
        let x = left.pop().unwrap();
        right.push(x);
        proof {
            assert(left@ =~= l0.remove(l0.len() - 1));
            l0.to_multiset_ensures();
            r0.to_multiset_ensures();
            assert(l0.contains(l0[l0.len() - 1]));
            assert(left@.to_multiset().add(right@.to_multiset()) =~= total);
        }
    }
    let sl = sort_by_key(left, k);
    let sr = sort_by_key(right, k);
    let r = merge(sl, sr, k);
    proof {
        r@.to_multiset_ensures();
        v@.to_multiset_ensures();
    }
    r
}

/// Two sequences with the same elements have the same length.
pub proof fn lemma_same_elements_len<V>(a: Seq<V>, b: Seq<V>)
    requires
        a.to_multiset() == b.to_multiset(),
    ensures
        a.len() == b.len(),
{
    a.to_multiset_ensures();
    b.to_multiset_ensures();
}

/// An element of one of two sequences with the same elements is at some
/// place in the other.
pub proof fn lemma_same_elements_index<V>(a: Seq<V>, b: Seq<V>, i: int) -> (j: int)
    requires
        a.to_multiset() == b.to_multiset(),
        0 <= i < a.len(),
    ensures
        0 <= j < b.len(),
        b[j] == a[i],
{
    a.to_multiset_ensures();
    b.to_multiset_ensures();
    assert(a.contains(a[i]));
    assert(a.to_multiset().count(a[i]) > 0);
    assert(b.contains(a[i]));
    choose|j: int| 0 <= j < b.len() && b[j] == a[i]
}

} // verus!
