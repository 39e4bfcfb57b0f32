//! The in-place merge of two adjoining sorted runs.
//!
//! The merge walks the lower run with one cursor and the head of the upper
//! run with another, exchanging elements pairwise. A displaced element can
//! break the upper run's order; the repair is a recursive merge of the upper
//! run against its own untouched remainder, never an auxiliary buffer.
//!
//! The choice of repair is deliberately graded: a displaced element that is
//! out of order only with its immediate neighbour is bubbled one step; one
//! that also outranks the run's first element has spliced two sorted runs
//! together and triggers a full recursive re-merge; and a cursor that has
//! left the run's smallest elements behind it is sent back to the head.
//! This keeps the procedure total — it terminates and sorts for every pair
//! of sorted views, duplicates included — at the cost of super-linear worst
//! cases, which is the price of using no extra space.

use vstd::prelude::*;
use vstd::pervasive::VecAdditionalExecFns;

use crate::order::lemma_multiset_lower_bound;
use crate::order::lemma_subrange_multiset_split;
use crate::order::lemma_swap_preserves_multiset;
use crate::order::sorted;
use crate::order::sorted_between;

verus! {

/// Merge two adjoining sorted views in place, by swaps only.
///
/// `left` and `right` stand for the lower and upper half of one backing
/// sequence, each already sorted ascending. Afterwards the concatenation
/// `left ++ right` is sorted ascending and holds the same multiset of
/// elements as before; the lengths of the two views — and with them the
/// split point between them — do not move. An empty view on either side
/// leaves both views untouched.
#[verifier::loop_isolation(false)]
pub fn in_place_merge(left: &mut Vec<i64>, right: &mut Vec<i64>)
    requires
        sorted(old(left)@),
        sorted(old(right)@),
    ensures
        final(left)@.len() == old(left)@.len(),
        final(right)@.len() == old(right)@.len(),
        sorted(final(left)@ + final(right)@),
        (final(left)@ + final(right)@).to_multiset() == (old(left)@ + old(right)@).to_multiset(),
        old(left)@.len() == 0 ==> final(left)@ == old(left)@ && final(right)@ == old(right)@,
        old(right)@.len() == 0 ==> final(left)@ == old(left)@ && final(right)@ == old(right)@,
{
    let m = left.len();
    let n = right.len();
    if m == 0 || n == 0 {
        proof {
            if m == 0 {
                assert(left@ + right@ =~= right@);
            } else {
                assert(left@ + right@ =~= left@);
            }
        }
        return;
    }
    let ghost l0 = left@;
    let ghost r0 = right@;
    let mut i: usize = 0;
    let mut k: usize = 0;
    while i < m
        invariant
            i <= m,
            k < n,
            left@.len() == m,
            right@.len() == n,
            sorted_between(left@, 0, m as int),
            sorted_between(right@, k as int, n as int),
            sorted_between(right@, 0, k as int),
            k > 0 ==> right@[k as int] <= right@[0],
            forall|p: int| 0 <= p < i ==> left@[p] <= right@[k as int],
            forall|p: int, q: int| 0 <= p < k && i <= q < m ==> right@[p] <= left@[q],
            (left@ + right@).to_multiset() == (l0 + r0).to_multiset(),
        decreases m - i,
    {
        if left[i] > right[k] {
            let ghost lb = left@;
            let ghost rb = right@;
            let x = left[i];
            let y = right[k];
            left.set(i, y);
            right.set(k, x);
            proof {
                assert(left@ + right@ =~= (lb + rb).update(i as int, (lb + rb)[m + k]).update(
                    m + k,
                    (lb + rb)[i as int],
                ));
                lemma_swap_preserves_multiset(lb + rb, i as int, m + k);
                assert(sorted_between(left@, 0, m as int)) by {
                    assert forall|a: int, b: int| 0 <= a <= b < m implies left@[a] <= left@[b] by {
                        if a == i as int && b > i as int {
                            assert(lb[i as int] <= lb[b]);
                        }
                    }
                }
            }
            if k + 1 < n && right[k] > right[k + 1] {
                if right[k] > right[0] {
                    // the displaced element breaks the upper view's order
                    // and outranks its first element: the view is now two
                    // sorted runs spliced together, so re-merge it and
                    // restart
                    proof {
                        assert(k > 0);
                        assert(sorted_between(right@, 0, k as int + 1)) by {
                            assert forall|a: int, b: int|
                                0 <= a <= b < k as int + 1 implies right@[a] <= right@[b] by {
                                if b == k as int && a < k as int {
                                    assert(rb[a] <= lb[i as int]);
                                }
                            }
                        }
                        assert(sorted_between(right@, k as int + 1, n as int));
                    }
                    let ghost w = right@;
                    merge_range(right, 0, k + 1, n);
                    proof {
                        assert forall|p: int| 0 <= p < n implies y <= w[p] by {
                            if 0 < p < k as int {
                                assert(rb[k as int] <= rb[0]);
                                assert(rb[0] <= rb[p]);
                            }
                        }
                        assert(w.subrange(0, n as int) =~= w);
                        assert(right@.subrange(0, n as int) =~= right@);
                        lemma_multiset_lower_bound(w, right@, y as int);
                        vstd::seq_lib::lemma_multiset_commutative(left@, right@);
                        vstd::seq_lib::lemma_multiset_commutative(left@, w);
                        assert(forall|p: int| 0 <= p <= i as int ==> left@[p] <= y);
                    }
                    k = 0;
                } else {
                    // only a local inversion at the cursor: bubble forward
                    proof {
                        assert(sorted_between(right@, 0, k as int + 1)) by {
                            assert forall|a: int, b: int|
                                0 <= a <= b < k as int + 1 implies right@[a] <= right@[b] by {
                                if b == k as int && a < k as int {
                                    assert(rb[a] <= lb[i as int]);
                                }
                            }
                        }
                        assert forall|p: int| 0 <= p < i implies #[trigger] left@[p] <= right@[
                            k as int + 1
                        ] by {
                            assert(lb[p] <= rb[k as int]);
                        }
                    }
                    k = k + 1;
                }
            } else {
                if k > 0 && right[k] > right[0] {
                    // the upper view is sorted again, but its smallest
                    // elements now lie behind the cursor; restart the scan
                    // at its head so they are not passed over
                    proof {
                        assert(sorted_between(right@, 0, n as int)) by {
                            assert forall|a: int, b: int|
                                0 <= a <= b < n implies right@[a] <= right@[b] by {
                                if a < k as int {
                                    assert(right@[a] <= lb[i as int]);
                                }
                                if b > k as int {
                                    assert(rb[k as int + 1] <= right@[b]);
                                }
                            }
                        }
                        assert forall|p: int| 0 <= p < i implies #[trigger] left@[p] <= right@[
                            0
                        ] by {
                            assert(lb[p] <= rb[k as int]);
                            assert(rb[k as int] <= rb[0]);
                        }
                    }
                    k = 0;
                } else {
                    proof {
                        assert(sorted_between(right@, k as int, n as int)) by {
                            assert forall|a: int, b: int|
                                k as int <= a <= b < n implies right@[a] <= right@[b] by {
                                if a == k as int && b > k as int {
                                    assert(right@[k as int] <= right@[k as int + 1]);
                                    assert(rb[k as int + 1] <= right@[b]);
                                }
                            }
                        }
                    }
                }
            }
        }
        i = i + 1;
    }
    if k != 0 {
        let ghost w = right@;
        proof {
            assert forall|p: int| 0 <= p < n implies w[k as int] <= w[p] by {
                if 0 < p < k as int {
                    assert(w[k as int] <= w[0]);
                    assert(w[0] <= w[p]);
                }
            }
        }
        merge_range(right, 0, k, n);
        proof {
            assert(w.subrange(0, n as int) =~= w);
            assert(right@.subrange(0, n as int) =~= right@);
            lemma_multiset_lower_bound(w, right@, w[k as int] as int);
            vstd::seq_lib::lemma_multiset_commutative(left@, right@);
            vstd::seq_lib::lemma_multiset_commutative(left@, w);
            assert(forall|p: int| 0 <= p < m ==> left@[p] <= w[k as int]);
            assert(sorted(left@ + right@)) by {
                assert forall|a: int, b: int|
                    0 <= a <= b < m + n implies (left@ + right@)[a] <= (left@ + right@)[b] by {
                    if a < m && b >= m {
                        assert(left@[a] <= w[k as int]);
                        assert(w[k as int] <= right@[b - m]);
                    }
                }
            }
        }
    } else {
        proof {
            assert(sorted(left@ + right@)) by {
                assert forall|a: int, b: int|
                    0 <= a <= b < m + n implies (left@ + right@)[a] <= (left@ + right@)[b] by {
                    if a < m && b >= m {
                        assert(left@[a] <= right@[0]);
                        assert(right@[0] <= right@[b - m]);
                    }
                }
            }
        }
    }
}

/// Merge the adjoining sorted runs `v[lo..mid)` and `v[mid..hi)` in place,
/// by swaps only. Afterwards `v[lo..hi)` is sorted ascending, holds the same
/// multiset of elements as before, and nothing outside `[lo, hi)` has moved.
#[verifier::loop_isolation(false)]
pub fn merge_range(v: &mut Vec<i64>, lo: usize, mid: usize, hi: usize)
    requires
        lo <= mid <= hi <= old(v)@.len(),
        sorted_between(old(v)@, lo as int, mid as int),
        sorted_between(old(v)@, mid as int, hi as int),
    ensures
        final(v)@.len() == old(v)@.len(),
        sorted_between(final(v)@, lo as int, hi as int),
        final(v)@.subrange(lo as int, hi as int).to_multiset() == old(v)@.subrange(
            lo as int,
            hi as int,
        ).to_multiset(),
        forall|p: int| 0 <= p < old(v)@.len() && !(lo <= p < hi) ==> final(v)@[p] == old(v)@[p],
    decreases hi - lo,
{
    if lo == mid || mid == hi {
        return;
    }
    let ghost v0 = v@;
    let mut i: usize = lo;
    let mut k: usize = mid;
    while i < mid
        invariant
            lo <= i <= mid,
            mid <= k < hi,
            v@.len() == v0.len(),
            sorted_between(v@, lo as int, mid as int),
            sorted_between(v@, k as int, hi as int),
            sorted_between(v@, mid as int, k as int),
            k > mid ==> v@[k as int] <= v@[mid as int],
            forall|p: int| lo <= p < i ==> v@[p] <= v@[k as int],
            forall|p: int, q: int| mid <= p < k && i <= q < mid ==> v@[p] <= v@[q],
            forall|p: int| 0 <= p < v0.len() && !(lo <= p < hi) ==> v@[p] == v0[p],
            v@.subrange(lo as int, hi as int).to_multiset() == v0.subrange(
                lo as int,
                hi as int,
            ).to_multiset(),
        decreases mid - i,
    {
        if v[i] > v[k] {
            let ghost before = v@;
            let x = v[i];
            let y = v[k];
            v.set(i, y);
            v.set(k, x);
            proof {
                assert(v@.subrange(lo as int, hi as int) =~= before.subrange(
                    lo as int,
                    hi as int,
                ).update(i as int - lo as int, before[k as int]).update(
                    k as int - lo as int,
                    before[i as int],
                ));
                lemma_swap_preserves_multiset(
                    before.subrange(lo as int, hi as int),
                    i as int - lo as int,
                    k as int - lo as int,
                );
                assert(sorted_between(v@, lo as int, mid as int)) by {
                    assert forall|a: int, b: int| lo <= a <= b < mid implies v@[a] <= v@[b] by {
                        if a == i as int && b > i as int {
                            assert(before[i as int] <= before[b]);
                        }
                    }
                }
            }
            if k + 1 < hi && v[k] > v[k + 1] {
                if v[k] > v[mid] {
                    // the displaced element breaks the upper run's order and
                    // outranks its first element: the run is now two sorted
                    // runs spliced together, so re-merge it and restart
                    proof {
                        assert(k > mid);
                        assert(sorted_between(v@, mid as int, k as int + 1)) by {
                            assert forall|a: int, b: int|
                                mid <= a <= b < k as int + 1 implies v@[a] <= v@[b] by {
                                if b == k as int && a < k as int {
                                    assert(before[a] <= before[i as int]);
                                }
                            }
                        }
                        assert(sorted_between(v@, k as int + 1, hi as int));
                    }
                    let ghost w = v@;
                    merge_range(v, mid, k + 1, hi);
                    proof {
                        assert forall|p: int| mid <= p < hi implies y <= w[p] by {
                            if p < k as int {
                                assert(before[k as int] <= before[mid as int]);
                                assert(before[mid as int] <= before[p]);
                            }
                        }
                        lemma_multiset_lower_bound(
                            w.subrange(mid as int, hi as int),
                            v@.subrange(mid as int, hi as int),
                            y as int,
                        );
                        assert forall|p: int| mid <= p < hi implies y <= v@[p] by {
                            assert(v@.subrange(mid as int, hi as int)[p - mid as int] == v@[p]);
                        }
                        lemma_subrange_multiset_split(w, lo as int, mid as int, hi as int);
                        lemma_subrange_multiset_split(v@, lo as int, mid as int, hi as int);
                        assert(v@.subrange(lo as int, mid as int) =~= w.subrange(
                            lo as int,
                            mid as int,
                        ));
                        assert(forall|p: int| lo <= p <= i as int ==> v@[p] <= y);
                    }
                    k = mid;
                } else {
                    // only a local inversion at the cursor: bubble forward
                    proof {
                        assert(sorted_between(v@, mid as int, k as int + 1)) by {
                            assert forall|a: int, b: int|
                                mid <= a <= b < k as int + 1 implies v@[a] <= v@[b] by {
                                if b == k as int && a < k as int {
                                    assert(before[a] <= before[i as int]);
                                }
                            }
                        }
                        assert forall|p: int| lo <= p < i implies #[trigger] before[p] <= before[
                            k as int + 1
                        ] by {
                            assert(before[p] <= before[k as int]);
                        }
                    }
                    k = k + 1;
                }
            } else {
                if k > mid && v[k] > v[mid] {
                    // the upper run is sorted again, but its smallest
                    // elements now lie behind the cursor; restart the scan
                    // at its head so they are not passed over
                    proof {
                        assert(sorted_between(v@, mid as int, hi as int)) by {
                            assert forall|a: int, b: int|
                                mid <= a <= b < hi implies v@[a] <= v@[b] by {
                                if a < k as int {
                                    assert(v@[a] <= before[i as int]);
                                }
                                if b > k as int {
                                    assert(before[k as int + 1] <= v@[b]);
                                }
                            }
                        }
                        assert forall|p: int| lo <= p < i implies #[trigger] before[p] <= before[
                            mid as int
                        ] by {
                            assert(before[p] <= before[k as int]);
                        }
                    }
                    k = mid;
                } else {
                    proof {
                        assert(sorted_between(v@, k as int, hi as int)) by {
                            assert forall|a: int, b: int|
                                k as int <= a <= b < hi implies v@[a] <= v@[b] by {
                                if a == k as int && b > k as int {
                                    assert(v@[k as int] <= v@[k as int + 1]);
                                    assert(before[k as int + 1] <= v@[b]);
                                }
                            }
                        }
                    }
                }
            }
        }
        i = i + 1;
    }
    if k > mid {
        let ghost w = v@;
        proof {
            assert forall|p: int| mid <= p < hi implies w[k as int] <= w[p] by {
                if p < k as int {
                    assert(w[k as int] <= w[mid as int]);
                    assert(w[mid as int] <= w[p]);
                }
            }
        }
        merge_range(v, mid, k, hi);
        proof {
            lemma_multiset_lower_bound(
                w.subrange(mid as int, hi as int),
                v@.subrange(mid as int, hi as int),
                w[k as int] as int,
            );
            assert forall|p: int| mid <= p < hi implies w[k as int] <= v@[p] by {
                assert(v@.subrange(mid as int, hi as int)[p - mid as int] == v@[p]);
            }
            lemma_subrange_multiset_split(w, lo as int, mid as int, hi as int);
            lemma_subrange_multiset_split(v@, lo as int, mid as int, hi as int);
            assert(v@.subrange(lo as int, mid as int) =~= w.subrange(lo as int, mid as int));
            assert(sorted_between(v@, lo as int, hi as int)) by {
                assert forall|a: int, b: int| lo <= a <= b < hi as int implies v@[a] <= v@[b] by {
                    if a < mid && mid <= b {
                        assert(v@[a] == w[a] && w[a] <= w[k as int]);
                        assert(w[k as int] <= v@[b]);
                    }
                }
            }
        }
    }
}

}
