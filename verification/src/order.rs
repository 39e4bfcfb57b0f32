//! Ordering and permutation facts shared by the merge and the sort.

use vstd::prelude::*;

verus! {

/// The slice of `s` from `lo` (inclusive) to `hi` (exclusive) is sorted
/// ascending.
pub open spec fn sorted_between(s: Seq<i64>, lo: int, hi: int) -> bool {
    forall|a: int, b: int| lo <= a <= b < hi ==> s[a] <= s[b]
}

/// The whole sequence is sorted ascending.
pub open spec fn sorted(s: Seq<i64>) -> bool {
    sorted_between(s, 0, s.len() as int)
}

/// Exchanging the elements at two positions leaves the multiset of elements
/// of a sequence unchanged.
pub proof fn lemma_swap_preserves_multiset(s: Seq<i64>, i: int, j: int)
    requires
        0 <= i < s.len(),
        0 <= j < s.len(),
    ensures
        s.update(i, s[j]).update(j, s[i]).to_multiset() == s.to_multiset(),
{
    broadcast use vstd::seq_lib::group_to_multiset_ensures;
    broadcast use vstd::seq_lib::to_multiset_update;
    broadcast use vstd::multiset::group_multiset_axioms;

    let t = s.update(i, s[j]).update(j, s[i]);
    if i == j {
        assert(t =~= s);
    } else {
        assert(s.contains(s[i]));
        assert(s.contains(s[j]));
        assert(t.to_multiset() =~= s.to_multiset());
    }
}

/// The multiset of a slice splits at any interior position into the
/// multisets of the two halves.
pub proof fn lemma_subrange_multiset_split(s: Seq<i64>, lo: int, m: int, hi: int)
    requires
        0 <= lo <= m <= hi <= s.len(),
    ensures
        s.subrange(lo, hi).to_multiset() == s.subrange(lo, m).to_multiset().add(
            s.subrange(m, hi).to_multiset(),
        ),
{
    assert(s.subrange(lo, hi) =~= s.subrange(lo, m) + s.subrange(m, hi));
    vstd::seq_lib::lemma_multiset_commutative(s.subrange(lo, m), s.subrange(m, hi));
}

/// A lower bound on every element survives any rearrangement: if two
/// sequences hold the same multiset and every element of the first is at
/// least `b`, then so is every element of the second.
pub proof fn lemma_multiset_lower_bound(s: Seq<i64>, t: Seq<i64>, b: int)
    requires
        s.to_multiset() == t.to_multiset(),
        forall|p: int| 0 <= p < s.len() ==> b <= s[p],
    ensures
        forall|p: int| 0 <= p < t.len() ==> b <= t[p],
{
    broadcast use vstd::seq_lib::group_to_multiset_ensures;

    assert forall|p: int| 0 <= p < t.len() implies b <= t[p] by {
        assert(t.contains(t[p]));
        assert(s.to_multiset().count(t[p]) > 0);
        assert(s.contains(t[p]));
        let q = choose|q: int| 0 <= q < s.len() && s[q] == t[p];
        assert(b <= s[q]);
    }
}

/// The mirror image of `lemma_multiset_lower_bound`, for upper bounds.
pub proof fn lemma_multiset_upper_bound(s: Seq<i64>, t: Seq<i64>, b: int)
    requires
        s.to_multiset() == t.to_multiset(),
        forall|p: int| 0 <= p < s.len() ==> s[p] <= b,
    ensures
        forall|p: int| 0 <= p < t.len() ==> t[p] <= b,
{
    broadcast use vstd::seq_lib::group_to_multiset_ensures;

    assert forall|p: int| 0 <= p < t.len() implies t[p] <= b by {
        assert(t.contains(t[p]));
        assert(s.to_multiset().count(t[p]) > 0);
        assert(s.contains(t[p]));
        let q = choose|q: int| 0 <= q < s.len() && s[q] == t[p];
        assert(s[q] <= b);
    }
}

/// The ascending order on elements, as a relation.
pub open spec fn ascending_order() -> spec_fn(i64, i64) -> bool {
    |x: i64, y: i64| x <= y
}

/// The ascending arrangement of a sequence's elements.
pub open spec fn ascending(s: Seq<i64>) -> Seq<i64> {
    s.sort_by(ascending_order())
}

/// A multiset of elements has exactly one sorted arrangement: two sorted
/// sequences holding the same elements are equal. Together with the
/// contracts of the merge functions this says that merging produces exactly
/// the ascending arrangement of everything the two runs held.
pub proof fn lemma_sorted_arrangement_unique(a: Seq<i64>, b: Seq<i64>)
    requires
        sorted(a),
        sorted(b),
        a.to_multiset() == b.to_multiset(),
    ensures
        a == b,
{
    let leq = |x: i64, y: i64| x <= y;
    assert(vstd::relations::sorted_by(a, leq));
    assert(vstd::relations::sorted_by(b, leq));
    assert(vstd::relations::total_ordering(leq)) by {
        assert(vstd::relations::reflexive(leq));
        assert(vstd::relations::antisymmetric(leq));
        assert(vstd::relations::transitive(leq));
        assert(vstd::relations::strongly_connected(leq));
    }
    vstd::seq_lib::lemma_sorted_unique(a, b, leq);
    assert(a =~= b);
}

/// Completeness of merging: whatever rearrangement leaves the concatenation
/// of the two views sorted without adding or dropping elements — which is
/// what the merge contracts guarantee — that concatenation is exactly the
/// multiset union of the two inputs, in ascending order.
pub proof fn lemma_merge_is_ascending_union(a: Seq<i64>, b: Seq<i64>, l: Seq<i64>, r: Seq<i64>)
    requires
        sorted(l + r),
        (l + r).to_multiset() == (a + b).to_multiset(),
    ensures
        l + r == ascending(a + b),
{
    let leq = ascending_order();
    assert(vstd::relations::total_ordering(leq)) by {
        assert(vstd::relations::reflexive(leq));
        assert(vstd::relations::antisymmetric(leq));
        assert(vstd::relations::transitive(leq));
        assert(vstd::relations::strongly_connected(leq));
    }
    (a + b).lemma_sort_by_ensures(leq);
    assert(sorted(ascending(a + b))) by {
        let s = ascending(a + b);
        assert forall|p: int, q: int| 0 <= p <= q < s.len() implies s[p] <= s[q] by {
            if p < q {
                assert(leq(s[p], s[q]));
            }
        }
    }
    assert((a + b).to_multiset() =~= ascending(a + b).to_multiset());
    lemma_sorted_arrangement_unique(l + r, ascending(a + b));
}

}
