//! Rearrangements of `0..n`, in which the library's sorts are stated.

use vstd::prelude::*;

verus! {

/// `order` is a rearrangement of `0..n`.
pub open spec fn is_permutation(order: Seq<int>, n: nat) -> bool {
    &&& order.len() == n
    &&& forall|k: int| 0 <= k < n ==> 0 <= #[trigger] order[k] < n
    &&& forall|k: int, l: int| 0 <= k < l < n ==> #[trigger] order[k] != #[trigger] order[l]
}

/// Every index below `n` is somewhere in a rearrangement of `0..n`.
pub proof fn lemma_permutation_onto(order: Seq<int>, n: nat, v: int)
    requires
        is_permutation(order, n),
        0 <= v < n,
    ensures
        order.contains(v),
{
    assert(order.no_duplicates()) by {
        assert forall|i: int, j: int| 0 <= i < order.len() && 0 <= j < order.len() && i != j implies order[i]
            != order[j] by {
            if i < j {
                assert(order[i] != order[j]);
            } else {
                assert(order[j] != order[i]);
            }
        }
    }
    order.unique_seq_to_set();
    let range = vstd::set_lib::set_int_range(0, n as int);
    vstd::set_lib::lemma_int_range(0, n as int);
    assert(order.to_set().subset_of(range)) by {
        assert forall|x: int| order.to_set().contains(x) implies range.contains(x) by {
            let k = choose|k: int| 0 <= k < order.len() && order[k] == x;
            assert(0 <= order[k] < n);
        }
    }
    vstd::set_lib::lemma_subset_equality(order.to_set(), range);
    assert(range.contains(v));
    assert(order.to_set().contains(v));
}

/// Position `i` ranks before position `j`: a larger count, or the same count
/// and an earlier position.
pub open spec fn ranked_before(counts: Seq<nat>, i: int, j: int) -> bool {
    counts[i] > counts[j] || (counts[i] == counts[j] && i < j)
}

/// `order` lists the positions of `counts` from the largest count down,
/// positions with the same count keeping their order.
pub open spec fn ranks(counts: Seq<nat>, order: Seq<int>) -> bool {
    &&& is_permutation(order, counts.len())
    &&& forall|k: int, l: int|
        0 <= k < l < order.len() ==> ranked_before(counts, #[trigger] order[k], #[trigger] order[l])
}

/// Two rankings of the same counts agree on their first `k` places.
proof fn lemma_ranks_agree(counts: Seq<nat>, o1: Seq<int>, o2: Seq<int>, k: int)
    requires
        ranks(counts, o1),
        ranks(counts, o2),
        0 <= k <= counts.len(),
    ensures
        forall|m: int| 0 <= m < k ==> #[trigger] o1[m] == o2[m],
    decreases k,
{
    if k > 0 {
        let j = k - 1;
        lemma_ranks_agree(counts, o1, o2, j);
        let n = counts.len();
        let a = o1[j];
        let b = o2[j];
        if a != b {
            lemma_permutation_onto(o2, n, a);
            let m = choose|m: int| 0 <= m < o2.len() && o2[m] == a;
            if m < j {
                assert(o1[m] == o2[m]);
                assert(o1[m] != o1[j]);
            }
            assert(ranked_before(counts, o2[j], o2[m]));
            lemma_permutation_onto(o1, n, b);
            let p = choose|p: int| 0 <= p < o1.len() && o1[p] == b;
            if p < j {
                assert(o1[p] == o2[p]);
                assert(o2[p] != o2[j]);
            }
            assert(ranked_before(counts, o1[j], o1[p]));
        }
    }
}

/// Counts have exactly one ranking.
pub proof fn lemma_ranks_unique(counts: Seq<nat>, o1: Seq<int>, o2: Seq<int>)
    requires
        ranks(counts, o1),
        ranks(counts, o2),
    ensures
        o1 == o2,
{
    lemma_ranks_agree(counts, o1, o2, counts.len() as int);
    assert(o1 =~= o2);
}

} // verus!
