//! What a majority keeps hold of, coordinate by coordinate.
use vstd::prelude::*;
use crate::float::binary32::Binary32;
use crate::order::{ranks32, sorted32, stable_order, stable_order_is_a_sorted_permutation};
use crate::robust::coordinate::{trim_count, CoordinateWiseRobustStatistic, MedianStatistic};
use crate::weights::all_finite;

verus! {

/// Which values lie outside the range from `low` to `high`.
pub open spec fn outliers(values: Seq<Binary32>, low: Binary32, high: Binary32) -> Set<usize> {
    Set::new(
        |i: usize|
            i < values.len() && !(low.rank() <= values[i as int].rank() <= high.rank()),
    )
}

/// A sorted list has at most the outliers outside the range at either end.
pub proof fn outliers_sort_to_the_ends(
    values: Seq<Binary32>,
    low: Binary32,
    high: Binary32,
    k: int,
)
    requires
        values.len() <= usize::MAX,
        outliers(values, low, high).len() <= k < values.len() - outliers(values, low, high).len(),
    ensures
        low.rank() <= sorted32(values)[k].rank() <= high.rank(),
{
    let n = values.len();
    let ranks = ranks32(values);
    let p = stable_order(ranks);
    stable_order_is_a_sorted_permutation(ranks);
    let out = outliers(values, low, high);
    // every outlier stands somewhere in the order
    assert(out.subset_of(p.to_set())) by {
        assert forall|i: usize| out.contains(i) implies p.to_set().contains(i) by {
            assert(p.contains(i));
        }
    }
    vstd::seq_lib::seq_to_set_is_finite(p);
    vstd::set_lib::lemma_set_subset_finite(p.to_set(), out);
    let x = sorted32(values)[k];
    assert(p[k] < n);
    assert(x == values[p[k] as int]);
    if x.rank() < low.rank() {
        let head = p.take(k + 1);
        assert(head.no_duplicates());
        assert(head.to_set().subset_of(out)) by {
            assert forall|i: usize| head.to_set().contains(i) implies out.contains(i) by {
                let at = choose|at: int| 0 <= at < head.len() && head[at] == i;
                assert(p[at] == i && p[at] < n);
                if at < k {
                    assert(ranks[p[at] as int] <= ranks[p[k] as int]);
                }
            }
        }
        head.unique_seq_to_set();
        vstd::set_lib::lemma_len_subset(head.to_set(), out);
    }
    if x.rank() > high.rank() {
        let tail = p.skip(k);
        assert(tail.no_duplicates());
        assert(tail.to_set().subset_of(out)) by {
            assert forall|i: usize| tail.to_set().contains(i) implies out.contains(i) by {
                let at = choose|at: int| 0 <= at < tail.len() && tail[at] == i;
                assert(p[k + at] == i && p[k + at] < n);
                if at > 0 {
                    assert(ranks[p[k] as int] <= ranks[p[k + at] as int]);
                }
            }
        }
        tail.unique_seq_to_set();
        vstd::set_lib::lemma_len_subset(tail.to_set(), out);
    }
}

/// Every number of a sorted list is one of the numbers that were sorted.
proof fn lemma_sorted_finite(values: Seq<Binary32>, k: int)
    requires
        values.len() <= usize::MAX,
        all_finite(values),
        0 <= k < values.len(),
    ensures
        sorted32(values)[k].finite(),
{
    stable_order_is_a_sorted_permutation(ranks32(values));
    assert(stable_order(ranks32(values))[k] < values.len());
}

/// Less than half of the values cannot move the median out of the range of
/// the others.
pub proof fn a_minority_cannot_move_the_median(
    values: Seq<Binary32>,
    low: Binary32,
    high: Binary32,
)
    requires
        0 < values.len() <= usize::MAX,
        all_finite(values),
        low.finite(),
        high.finite(),
        2 * outliers(values, low, high).len() < values.len(),
    ensures
        MedianStatistic.combines(values).finite(),
        low.rank() <= MedianStatistic.combines(values).rank() <= high.rank(),
{
    let n = values.len() as int;
    lemma_sorted_finite(values, n / 2);
    outliers_sort_to_the_ends(values, low, high, n / 2);
    if n % 2 == 0 {
        lemma_sorted_finite(values, n / 2 - 1);
        outliers_sort_to_the_ends(values, low, high, n / 2 - 1);
        let (a, b) = (sorted32(values)[n / 2 - 1], sorted32(values)[n / 2]);
        if a.plus(b).finite() {
            a.halves_stay_between(b, low, high);
        } else {
            a.halves_add_up(b);
            a.halved_sums_stay_between(b, low, high);
        }
    }
}

/// The median of an odd number of values is one of them.
pub proof fn an_odd_median_is_a_submitted_value(values: Seq<Binary32>)
    requires
        values.len() <= usize::MAX,
        values.len() % 2 == 1,
    ensures
        values.contains(MedianStatistic.combines(values)),
{
    let n = values.len() as int;
    stable_order_is_a_sorted_permutation(ranks32(values));
    let at = stable_order(ranks32(values))[n / 2];
    assert(at < values.len());
    assert(values[at as int] == MedianStatistic.combines(values));
}

/// A trimmed mean averages only values from the range of the others, where no
/// more values lie outside it than are trimmed from each end.
pub proof fn trimming_removes_the_outliers(
    values: Seq<Binary32>,
    fraction: Binary32,
    low: Binary32,
    high: Binary32,
    k: int,
)
    requires
        values.len() <= usize::MAX,
        outliers(values, low, high).len() <= trim_count(fraction, values.len()),
        trim_count(fraction, values.len()) <= k < values.len() - trim_count(
            fraction,
            values.len(),
        ),
    ensures
        low.rank() <= sorted32(values)[k].rank() <= high.rank(),
{
    outliers_sort_to_the_ends(values, low, high, k);
}

/// Trimming always leaves a value to average.
pub proof fn trimming_leaves_something(fraction: Binary32, n: nat)
    requires
        n > 0,
    ensures
        2 * trim_count(fraction, n) < n,
{
}

} // verus!
