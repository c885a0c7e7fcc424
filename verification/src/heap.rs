use vstd::prelude::*;
use vstd::seq_lib::to_multiset_update;

verus! {

/// The entries of `s` are in heap order: none is less than the one at half
/// its place.
pub open spec fn is_heap<P>(s: Seq<(i128, P)>) -> bool {
    forall|i: int| 0 < i < s.len() ==> (#[trigger] s[(i - 1) / 2]).0 <= s[i].0
}

/// Heap order everywhere but between the place `hole` and the place above it;
/// and what lies below `hole` is not less than what lies above it.
pub open spec fn heap_but_above<P>(s: Seq<(i128, P)>, hole: int) -> bool {
    &&& forall|i: int| 0 < i < s.len() && i != hole ==> (#[trigger] s[(i - 1) / 2]).0 <= s[i].0
    &&& forall|i: int|
        0 < i < s.len() && (i - 1) / 2 == hole && hole > 0 ==> s[(hole - 1) / 2].0 <= (
        #[trigger] s[i]).0
}

/// Heap order everywhere but between the place `hole` and the places below
/// it; and what lies below `hole` is not less than what lies above it.
pub open spec fn heap_but_below<P>(s: Seq<(i128, P)>, hole: int) -> bool {
    &&& forall|i: int|
        0 < i < s.len() && (i - 1) / 2 != hole ==> (#[trigger] s[(i - 1) / 2]).0 <= s[i].0
    &&& forall|i: int|
        0 < i < s.len() && (i - 1) / 2 == hole && hole > 0 ==> s[(hole - 1) / 2].0 <= (
        #[trigger] s[i]).0
}

/// In a heap nothing is less than the first entry.
pub proof fn lemma_heap_min<P>(s: Seq<(i128, P)>, i: int)
    requires
        is_heap(s),
        0 <= i < s.len(),
    ensures
        s[0].0 <= s[i].0,
    decreases i,
{
    if i > 0 {
        assert(s[(i - 1) / 2].0 <= s[i].0);
        lemma_heap_min(s, (i - 1) / 2);
    }
}

/// Exchanging two entries leaves the entries the same.
pub proof fn lemma_swap_same_elements<A>(s: Seq<A>, i: int, j: int)
    requires
        0 <= i < s.len(),
        0 <= j < s.len(),
    ensures
        s.update(i, s[j]).update(j, s[i]).to_multiset() == s.to_multiset(),
{
    to_multiset_update(s, i, s[j]);
    to_multiset_update(s.update(i, s[j]), j, s[i]);
    s.to_multiset_ensures();
    assert(s.contains(s[i]));
    assert(s.contains(s[j]));
    assert(s.update(i, s[j]).update(j, s[i]).to_multiset() =~= s.to_multiset());
}

/// Adds an entry to a heap.
pub fn heap_push<P: Copy>(v: &mut Vec<(i128, P)>, e: (i128, P))
    requires
        is_heap(old(v)@),
    ensures
        is_heap(final(v)@),
        final(v)@.to_multiset() == old(v)@.to_multiset().insert(e),
{
    proof {
        v@.to_multiset_ensures();
    }
    v.push(e);
    let mut i: usize = v.len() - 1;
    let mut settled = false;
    while !settled
        invariant
            i < v@.len(),
            settled ==> is_heap(v@),
            !settled ==> heap_but_above(v@, i as int),
            v@.to_multiset() == old(v)@.to_multiset().insert(e),
        decreases
                (if settled {
                    0
                } else {
                    i + 1
                }),
    {
        if i == 0 {
            settled = true;
            continue ;
        }
        let p = (i - 1) / 2;
        let child = v[i];
        let parent = v[p];
        if parent.0 <= child.0 {
            settled = true;
            continue ;
        }
        let ghost before = v@;
        v[i] = parent;
        v[p] = child;
        proof {
            lemma_swap_same_elements(before, i as int, p as int);
            assert(v@ =~= before.update(i as int, before[p as int]).update(
                p as int,
                before[i as int],
            ));
            assert forall|k: int| 0 < k < v@.len() && k != p implies (#[trigger] v@[(k - 1) / 2]).0
                <= v@[k].0 by {
                if k == i {
                } else if (k - 1) / 2 == i {
                    assert(before[(i - 1) / 2].0 <= before[k].0);
                } else if (k - 1) / 2 == p {
                    assert(before[(k - 1) / 2].0 <= before[k].0);
                } else {
                    assert(before[(k - 1) / 2].0 <= before[k].0);
                }
            }
            assert forall|k: int|
                0 < k < v@.len() && (k - 1) / 2 == p && p > 0 implies v@[(p - 1) / 2].0 <= (
            #[trigger] v@[k]).0 by {
                assert(before[(p - 1) / 2].0 <= before[p as int].0);
                if k != i {
                    assert(before[(k - 1) / 2].0 <= before[k].0);
                }
            }
        }
        i = p;
    }
}

/// Takes the least entry out of a heap; `None` where the heap is empty.
pub fn heap_pop<P: Copy>(v: &mut Vec<(i128, P)>) -> (r: Option<(i128, P)>)
    requires
        is_heap(old(v)@),
    ensures
        is_heap(final(v)@),
        match r {
            None => old(v)@.len() == 0 && final(v)@.len() == 0,
            Some(e) => {
                &&& old(v)@.to_multiset().count(e) > 0
                &&& forall|i: int| 0 <= i < old(v)@.len() ==> e.0 <= (#[trigger] old(v)@[i]).0
                &&& final(v)@.to_multiset() == old(v)@.to_multiset().remove(e)
                &&& final(v)@.len() + 1 == old(v)@.len()
            },
        },
{
    if v.len() == 0 {
        return None;
    }
    let least = v[0];
    let ghost start = v@;
    proof {
        start.to_multiset_ensures();
        assert(start.contains(start[0]));
        assert forall|i: int| 0 <= i < start.len() implies least.0 <= (#[trigger] start[i]).0 by {
            lemma_heap_min(start, i);
        }
    }
    let last = v.pop().unwrap();
    if v.len() == 0 {
        proof {
            assert(v@ =~= start.remove(0));
        }
        return Some(least);
    }
    let ghost shorter = v@;
    v[0] = last;
    let n = v.len();
    proof {
        assert(shorter =~= start.remove(start.len() - 1));
        assert(start.contains(start[start.len() - 1]));
        to_multiset_update(shorter, 0, last);
        shorter.to_multiset_ensures();
        assert(shorter.contains(shorter[0]));
        assert(v@.to_multiset() =~= start.to_multiset().remove(least));
        assert forall|k: int| 0 < k < v@.len() && (k - 1) / 2 != 0 implies (#[trigger] v@[(k - 1)
            / 2]).0 <= v@[k].0 by {
            assert(start[(k - 1) / 2].0 <= start[k].0);
        }
    }
    let mut i: usize = 0;
    while i < n / 2
        invariant
            n == v@.len(),
            n + 1 == start.len(),
            start == old(v)@,
            i < n,
            heap_but_below(v@, i as int),
            v@.to_multiset() == start.to_multiset().remove(least),
            start.to_multiset().count(least) > 0,
            forall|j: int| 0 <= j < start.len() ==> least.0 <= (#[trigger] start[j]).0,
        decreases n - i,
    {
        let left = 2 * i + 1;
        let right = left + 1;
        let mut c = left;
        if right < n && v[right].0 < v[left].0 {
            c = right;
        }
        let child = v[c];
        let here = v[i];
        if here.0 <= child.0 {
            proof {
                assert forall|k: int| 0 < k < v@.len() implies (#[trigger] v@[(k - 1) / 2]).0
                    <= v@[k].0 by {
                    if (k - 1) / 2 == i {
                        assert(k == left || k == right);
                    }
                }
            }
            return Some(least);
        }
        let ghost before = v@;
        v[i] = child;
        v[c] = here;
        proof {
            lemma_swap_same_elements(before, i as int, c as int);
            assert(v@ =~= before.update(i as int, before[c as int]).update(
                c as int,
                before[i as int],
            ));
            assert forall|k: int| 0 < k < v@.len() && (k - 1) / 2 != c implies (#[trigger] v@[(k
                - 1) / 2]).0 <= v@[k].0 by {
                if (k - 1) / 2 == i {
                    assert(k == left || k == right);
                } else if k == i {
                    assert(before[(c - 1) / 2 as int] == before[i as int]);
                    assert(before[(i - 1) / 2].0 <= before[c as int].0);
                } else {
                    assert(before[(k - 1) / 2].0 <= before[k].0);
                }
            }
            assert forall|k: int|
                0 < k < v@.len() && (k - 1) / 2 == c && c > 0 implies v@[(c - 1) / 2].0 <= (
            #[trigger] v@[k]).0 by {
                assert(before[(k - 1) / 2].0 <= before[k].0);
            }
        }
        i = c;
    }
    proof {
        assert forall|k: int| 0 < k < v@.len() implies (#[trigger] v@[(k - 1) / 2]).0 <= v@[k].0 by {
            if (k - 1) / 2 == i {
                assert(k >= 2 * i + 1);
            }
        }
    }
    Some(least)
}

} // verus!
