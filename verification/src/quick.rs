//! A partition-based sort of a single run.
//!
//! This is the secondary utility beside the in-place merge: a quicksort
//! driven by a Lomuto partition, plus a Hoare-style partition that callers
//! can use on its own. Both partitions pivot on the first element of the
//! range they are given.

use vstd::prelude::*;
use vstd::pervasive::VecAdditionalExecFns;

use crate::order::lemma_multiset_lower_bound;
use crate::order::lemma_multiset_upper_bound;
use crate::order::lemma_subrange_multiset_split;
use crate::order::lemma_swap_preserves_multiset;
use crate::order::sorted;
use crate::order::sorted_between;

verus! {

/// Lomuto partition of `v[lo..hi)` around its first element. Returns the
/// pivot's final position: everything before it in the range is at most the
/// pivot, everything after it is strictly greater.
#[verifier::loop_isolation(false)]
pub fn lomuto_partition_range(v: &mut Vec<i64>, lo: usize, hi: usize) -> (p: usize)
    requires
        lo < hi <= old(v)@.len(),
    ensures
        final(v)@.len() == old(v)@.len(),
        lo <= p < hi,
        final(v)@.subrange(lo as int, hi as int).to_multiset() == old(v)@.subrange(
            lo as int,
            hi as int,
        ).to_multiset(),
        forall|q: int| 0 <= q < old(v)@.len() && !(lo <= q < hi) ==> final(v)@[q] == old(v)@[q],
        forall|q: int| lo <= q < p ==> final(v)@[q] <= final(v)@[p as int],
        forall|q: int| p < q < hi ==> final(v)@[q] > final(v)@[p as int],
        final(v)@[p as int] == old(v)@[lo as int],
{
    let ghost v0 = v@;
    let mut i: usize = lo;
    let mut j: usize = lo;
    while i + 1 < hi
        invariant
            lo <= j <= i < hi,
            v@.len() == v0.len(),
            v@[lo as int] == v0[lo as int],
            forall|q: int| lo < q <= j ==> v@[q] <= v@[lo as int],
            forall|q: int| j < q <= i ==> v@[q] > v@[lo as int],
            forall|q: int| 0 <= q < v0.len() && !(lo <= q < hi) ==> v@[q] == v0[q],
            v@.subrange(lo as int, hi as int).to_multiset() == v0.subrange(
                lo as int,
                hi as int,
            ).to_multiset(),
        decreases hi - i,
    {
        i = i + 1;
        if v[i] <= v[lo] {
            j = j + 1;
            let ghost before = v@;
            let a = v[i];
            let b = v[j];
            v.set(i, b);
            v.set(j, a);
            proof {
                assert(v@.subrange(lo as int, hi as int) =~= before.subrange(
                    lo as int,
                    hi as int,
                ).update(i as int - lo as int, before[j as int]).update(
                    j as int - lo as int,
                    before[i as int],
                ));
                lemma_swap_preserves_multiset(
                    before.subrange(lo as int, hi as int),
                    i as int - lo as int,
                    j as int - lo as int,
                );
            }
        }
    }
    let ghost before = v@;
    let a = v[lo];
    let b = v[j];
    v.set(lo, b);
    v.set(j, a);
    proof {
        assert(v@.subrange(lo as int, hi as int) =~= before.subrange(lo as int, hi as int).update(
            0,
            before[j as int],
        ).update(j as int - lo as int, before[lo as int]));
        lemma_swap_preserves_multiset(
            before.subrange(lo as int, hi as int),
            0,
            j as int - lo as int,
        );
    }
    j
}

/// Quicksort of the range `v[lo..hi)`: afterwards the range is sorted
/// ascending and holds the same multiset of elements; nothing outside the
/// range moves.
pub fn quicksort_range(v: &mut Vec<i64>, lo: usize, hi: usize)
    requires
        lo <= hi <= old(v)@.len(),
    ensures
        final(v)@.len() == old(v)@.len(),
        sorted_between(final(v)@, lo as int, hi as int),
        final(v)@.subrange(lo as int, hi as int).to_multiset() == old(v)@.subrange(
            lo as int,
            hi as int,
        ).to_multiset(),
        forall|q: int| 0 <= q < old(v)@.len() && !(lo <= q < hi) ==> final(v)@[q] == old(v)@[q],
    decreases hi - lo,
{
    if lo == hi {
        return;
    }
    let p = lomuto_partition_range(v, lo, hi);
    let ghost u = v@;
    quicksort_range(v, lo, p);
    let ghost u2 = v@;
    quicksort_range(v, p + 1, hi);
    proof {
        let pivot = u[p as int] as int;
        // the pivot position is untouched by both recursive calls
        assert(v@[p as int] == u[p as int]);
        // the lower region keeps its upper bound across the first call
        assert(u2.subrange(lo as int, p as int).to_multiset() == u.subrange(
            lo as int,
            p as int,
        ).to_multiset());
        lemma_multiset_upper_bound(
            u.subrange(lo as int, p as int),
            u2.subrange(lo as int, p as int),
            pivot,
        );
        assert forall|q: int| lo <= q < p implies v@[q] <= pivot by {
            assert(v@[q] == u2[q]);
            assert(u2.subrange(lo as int, p as int)[q - lo] == u2[q]);
        }
        // the upper region keeps its strict lower bound across both calls
        assert(u2.subrange(p as int + 1, hi as int) =~= u.subrange(p as int + 1, hi as int));
        lemma_multiset_lower_bound(
            u2.subrange(p as int + 1, hi as int),
            v@.subrange(p as int + 1, hi as int),
            pivot + 1,
        );
        assert forall|q: int| p < q < hi implies v@[q] >= pivot + 1 by {
            assert(v@.subrange(p as int + 1, hi as int)[q - (p as int + 1)] == v@[q]);
        }
        // the lower region is still sorted after the second call
        assert(sorted_between(v@, lo as int, p as int)) by {
            assert(forall|q: int| lo <= q < p ==> v@[q] == u2[q]);
        }
        assert(sorted_between(v@, lo as int, hi as int)) by {
            assert forall|a: int, b: int| lo <= a <= b < hi implies v@[a] <= v@[b] by {
                if a < p as int && b >= p as int {
                    assert(v@[a] <= pivot);
                    if b > p as int {
                        assert(v@[b] >= pivot + 1);
                    }
                }
                if a == p as int && b > p as int {
                    assert(v@[b] >= pivot + 1);
                }
            }
        }
        // reassemble the multiset from the three pieces
        lemma_subrange_multiset_split(u, lo as int, p as int, hi as int);
        lemma_subrange_multiset_split(u, p as int, p as int + 1, hi as int);
        lemma_subrange_multiset_split(u2, lo as int, p as int, hi as int);
        lemma_subrange_multiset_split(u2, p as int, p as int + 1, hi as int);
        lemma_subrange_multiset_split(v@, lo as int, p as int, hi as int);
        lemma_subrange_multiset_split(v@, p as int, p as int + 1, hi as int);
        assert(v@.subrange(lo as int, p as int) =~= u2.subrange(lo as int, p as int));
        assert(v@.subrange(p as int, p as int + 1) =~= u2.subrange(p as int, p as int + 1));
        assert(u2.subrange(p as int, p as int + 1) =~= u.subrange(p as int, p as int + 1));
        assert(u2.subrange(p as int + 1, hi as int) =~= u.subrange(p as int + 1, hi as int));
    }
}

/// Hoare-style partition of the whole vector around its first element.
/// Returns the pivot's final position: everything before it is at most the
/// pivot, everything after it is at least the pivot. On an empty vector it
/// does nothing and returns zero.
pub fn partition(elements: &mut Vec<i64>) -> (p: usize)
    ensures
        final(elements)@.len() == old(elements)@.len(),
        final(elements)@.to_multiset() == old(elements)@.to_multiset(),
        old(elements)@.len() == 0 ==> p == 0 && final(elements)@ == old(elements)@,
        old(elements)@.len() > 0 ==> p < old(elements)@.len() && final(elements)@[p as int] == old(
            elements,
        )@[0] && (forall|q: int| 0 <= q < p ==> final(elements)@[q] <= final(elements)@[p as int])
            && (forall|q: int|
            p < q < old(elements)@.len() ==> final(elements)@[q] >= final(elements)@[p as int]),
{
    let n = elements.len();
    if n == 0 {
        return 0;
    }
    let ghost v0 = elements@;
    let mut i: usize = 0;
    let mut j: usize = n - 1;
    while i < j
        invariant
            1 <= n == v0.len(),
            i < n,
            j < n,
            elements@.len() == n,
            elements@[0] == v0[0],
            forall|q: int| 0 <= q < i ==> elements@[q] <= v0[0],
            forall|q: int| j < q < n ==> elements@[q] >= v0[0],
            elements@.to_multiset() == v0.to_multiset(),
            i < j ==> (elements@[i as int] <= v0[0] || elements@[j as int] >= v0[0]),
            i >= j ==> (j == 0 || elements@[j as int] < v0[0]),
        ensures
            i >= j,
            j < n,
            elements@.len() == n,
            elements@[0] == v0[0],
            forall|q: int| 0 <= q < j ==> elements@[q] <= v0[0],
            forall|q: int| j < q < n ==> elements@[q] >= v0[0],
            elements@.to_multiset() == v0.to_multiset(),
            j == 0 || elements@[j as int] < v0[0],
        decreases j - i,
    {
        let ghost ientry = i;
        let ghost jentry = j;
        while elements[i] <= elements[0] && i + 1 < n
            invariant
                1 <= n == elements@.len(),
                elements@[0] == v0[0],
                ientry <= i < n,
                forall|q: int| ientry <= q < i ==> elements@[q] <= v0[0],
            decreases n - i,
        {
            i = i + 1;
        }
        while elements[j] >= elements[0] && j > 0
            invariant
                1 <= n == elements@.len(),
                elements@[0] == v0[0],
                j <= jentry < n,
                forall|q: int| j < q <= jentry ==> elements@[q] >= v0[0],
            decreases j,
        {
            j = j - 1;
        }
        if i >= j {
            break ;
        }
        proof {
            // the scan from the left cannot be stuck at the pivot itself
            assert(i >= 1) by {
                if i == 0 {
                    assert(elements@[0] > v0[0] || i + 1 >= n);
                }
            }
        }
        let ghost before = elements@;
        let a = elements[i];
        let b = elements[j];
        elements.set(i, b);
        elements.set(j, a);
        proof {
            lemma_swap_preserves_multiset(before, i as int, j as int);
            // one of the two scans moved, so the gap shrank
            assert(i > ientry || j < jentry) by {
                if i == ientry && j == jentry {
                    assert(before[ientry as int] <= v0[0] || before[jentry as int] >= v0[0]);
                    assert(before[i as int] > v0[0] || i + 1 >= n);
                    assert(before[j as int] < v0[0] || j == 0);
                }
            }
        }
    }
    let ghost before = elements@;
    let a = elements[0];
    let b = elements[j];
    elements.set(0, b);
    elements.set(j, a);
    proof {
        lemma_swap_preserves_multiset(before, 0, j as int);
        if j == 0 {
            assert(elements@ =~= before);
        }
    }
    j
}

/// Sort the whole vector ascending, in place.
pub fn quicksort(elements: &mut Vec<i64>)
    ensures
        final(elements)@.len() == old(elements)@.len(),
        sorted(final(elements)@),
        final(elements)@.to_multiset() == old(elements)@.to_multiset(),
{
    let n = elements.len();
    if n == 0 {
        return;
    }
    quicksort_range(elements, 0, n);
    proof {
        assert(elements@.subrange(0, n as int) =~= elements@);
        assert(old(elements)@.subrange(0, n as int) =~= old(elements)@);
    }
}

/// Lomuto partition of the whole vector around its first element. On an
/// empty vector it does nothing and returns zero.
pub fn lomuto_partition(elements: &mut Vec<i64>) -> (p: usize)
    ensures
        final(elements)@.len() == old(elements)@.len(),
        final(elements)@.to_multiset() == old(elements)@.to_multiset(),
        old(elements)@.len() == 0 ==> p == 0 && final(elements)@ == old(elements)@,
        old(elements)@.len() > 0 ==> p < old(elements)@.len() && final(elements)@[p as int] == old(
            elements,
        )@[0] && (forall|q: int| 0 <= q < p ==> final(elements)@[q] <= final(elements)@[p as int])
            && (forall|q: int|
            p < q < old(elements)@.len() ==> final(elements)@[q] > final(elements)@[p as int]),
{
    let n = elements.len();
    if n == 0 {
        return 0;
    }
    let p = lomuto_partition_range(elements, 0, n);
    proof {
        assert(elements@.subrange(0, n as int) =~= elements@);
        assert(old(elements)@.subrange(0, n as int) =~= old(elements)@);
    }
    p
}

}
