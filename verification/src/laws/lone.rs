//! A batch of one update: every method gives it back.
use vstd::prelude::*;
use crate::aggregator::Aggregator;
use crate::averaging::{normalized, weighted_rows, FedAvg, SampleCountWeighting};
use crate::delta::{picked, Delta};
use crate::float::binary32::Binary32;
use crate::laws::averaging::{a_lone_update_is_its_own_mean, lemma_empty_sum, lemma_number, same_numbers};
use crate::laws::clipping::lemma_mean_of_one;
use crate::laws::selection::{faba_removes_the_assumed_number, multi_krum_keeps_the_rest};
use crate::linear::{empty_sum32, held_all, sum32, zeros32};
use crate::optimization::fedavgm::{momentum_step, MomentumMemory};
use crate::optimization::fedopt::{fedopt_step, FedOptMemory};
use crate::order::{ranks32, sorted32, stable_order, stable_order_is_a_sorted_permutation};
use crate::robust::coordinate::{column, combined_columns, group_means, plain_mean, CoordinateWiseAggregator, CoordinateWiseRobustStatistic, MedianOfMeansStatistic, MedianStatistic, TrimmedMeanStatistic};
use crate::robust::divide::DivideAndConquerFilter;
use crate::robust::faba::FabaFilter;
use crate::robust::filter::{ascending, every_index, filtered_step, indices_below, UpdateFilter};
use crate::robust::geometric::{combined_vectors, inverse_distance_weights, no_direction, sample_weights, weiszfeld, weiszfeld_start, GeometricMedianStatistic, RobustVectorStatistic};
use crate::robust::krum::{BulyanFilter, MultiKrumFilter};
use crate::weights::{accepted_batches_are_fit, all_finite, plus_weighted, validated};

verus! {

/// The one ascending choice of an index below one that is not empty.
proof fn lemma_only_choice(s: Seq<usize>)
    requires
        s.len() == 1,
        indices_below(s, 1),
    ensures
        s == every_index(1),
{
    assert(s[0] < 1);
    assert(s =~= every_index(1));
}

/// A filter that lets a lone update through, followed by federated averaging,
/// gives it back.
proof fn lemma_filtered<F: UpdateFilter>(filter: F, update: Delta)
    requires
        validated(seq![update]) is Ok,
        update.num_samples > 0,
        filter.selects(seq![update]) == Ok::<Seq<usize>, crate::error::Rejection>(every_index(1)),
    ensures
        filtered_step::<F, FedAvg>((filter, SampleCountWeighting), seq![update]).0 is Ok,
        same_numbers(
            filtered_step::<F, FedAvg>((filter, SampleCountWeighting), seq![update]).0->Ok_0,
            validated(seq![update])->Ok_0[0],
        ),
{
    reveal(filtered_step);
    assert(picked(seq![update], every_index(1)) =~= seq![update]);
    a_lone_update_is_its_own_mean(update);
}

/// Multi-Krum, FABA and Divide-and-Conquer give a lone update back.
pub proof fn filters_pass_a_lone_update(
    krum: MultiKrumFilter,
    faba: FabaFilter,
    divide: DivideAndConquerFilter,
    update: Delta,
)
    requires
        validated(seq![update]) is Ok,
        update.num_samples > 0,
    ensures
        ({
            let w = validated(seq![update])->Ok_0[0];
            let a = filtered_step::<MultiKrumFilter, FedAvg>(
                (krum, SampleCountWeighting),
                seq![update],
            ).0;
            let b = filtered_step::<FabaFilter, FedAvg>(
                (faba, SampleCountWeighting),
                seq![update],
            ).0;
            let c = filtered_step::<DivideAndConquerFilter, FedAvg>(
                (divide, SampleCountWeighting),
                seq![update],
            ).0;
            &&& a is Ok && same_numbers(a->Ok_0, w)
            &&& b is Ok && same_numbers(b->Ok_0, w)
            &&& c is Ok && same_numbers(c->Ok_0, w)
        }),
{
    let batch = seq![update];
    multi_krum_keeps_the_rest(krum, batch);
    krum.selects_within(batch);
    lemma_only_choice(krum.selects(batch)->Ok_0);
    lemma_filtered(krum, update);
    faba_removes_the_assumed_number(faba, batch);
    faba.selects_within(batch);
    lemma_only_choice(faba.selects(batch)->Ok_0);
    lemma_filtered(faba, update);
    accepted_batches_are_fit(batch);
    lemma_filtered(divide, update);
}

/// The sum of one number is that number.
proof fn lemma_sum_of_one(x: Binary32)
    requires
        x.finite(),
    ensures
        sum32(seq![x]).finite(),
        sum32(seq![x]).rank() == x.rank(),
{
    lemma_empty_sum();
    assert(seq![x].drop_last() =~= Seq::<Binary32>::empty());
    assert(sum32(Seq::<Binary32>::empty()) == empty_sum32());
    assert(sum32(seq![x]) == empty_sum32().plus(x));
    x.zero_adds_nothing(empty_sum32());
}

/// The mean of one number is that number.
proof fn lemma_plain_mean_of_one(x: Binary32)
    requires
        x.finite(),
    ensures
        plain_mean(seq![x]).finite(),
        plain_mean(seq![x]).rank() == x.rank(),
{
    lemma_sum_of_one(x);
    Binary32::one_is_whole();
    sum32(seq![x]).over_one();
}

/// A list of one number is sorted.
proof fn lemma_sorted_one(x: Binary32)
    ensures
        sorted32(seq![x]) == seq![x],
{
    let s = seq![x];
    stable_order_is_a_sorted_permutation(ranks32(s));
    assert(stable_order(ranks32(s))[0] < 1);
    assert(sorted32(s) =~= s);
}

/// The median, the trimmed mean and the median of means of one value are that
/// value.
pub proof fn statistics_of_one_value(
    trimmed: TrimmedMeanStatistic,
    grouped: MedianOfMeansStatistic,
    x: Binary32,
)
    requires
        x.finite(),
    ensures
        MedianStatistic.combines(seq![x]) == x,
        trimmed.combines(seq![x]).finite(),
        trimmed.combines(seq![x]).rank() == x.rank(),
        grouped.combines(seq![x]).finite(),
        grouped.combines(seq![x]).rank() == x.rank(),
{
    let s = seq![x];
    lemma_sorted_one(x);
    lemma_plain_mean_of_one(x);
    assert(s.subrange(0, 1) =~= s);
    let size: nat = if grouped.group_size == 0 {
        1
    } else {
        grouped.group_size as nat
    };
    assert(group_means(s, size) =~= seq![plain_mean(s)]);
    lemma_sorted_one(plain_mean(s));
}

/// The coordinate-wise methods give a lone update back.
pub proof fn coordinates_pass_a_lone_update<S: CoordinateWiseRobustStatistic>(
    statistic: S,
    update: Delta,
)
    requires
        validated(seq![update]) is Ok,
        forall|x: Binary32|
            x.finite() ==> (#[trigger] statistic.combines(seq![x])).finite() && statistic.combines(
                seq![x],
            ).rank() == x.rank(),
    ensures
        combined_columns(statistic, seq![update]) is Ok,
        same_numbers(
            combined_columns(statistic, seq![update])->Ok_0,
            validated(seq![update])->Ok_0[0],
        ),
{
    reveal(combined_columns);
    let batch = seq![update];
    accepted_batches_are_fit(batch);
    let m = validated(batch)->Ok_0;
    let r = combined_columns(statistic, batch)->Ok_0;
    assert forall|j: int| 0 <= j < r.len() implies (#[trigger] r[j]).finite() && m[0][j].finite()
        && r[j].rank() == m[0][j].rank() by {
        assert(all_finite(m[0]));
        assert(m[0][j].finite());
        assert(column(m, j) =~= seq![m[0][j]]);
    }
}

/// Bulyan gives a lone update back.
pub proof fn bulyan_passes_a_lone_update(
    filter: BulyanFilter,
    trimmed: TrimmedMeanStatistic,
    update: Delta,
)
    requires
        validated(seq![update]) is Ok,
    ensures
        ({
            let r = filtered_step::<BulyanFilter, CoordinateWiseAggregator<TrimmedMeanStatistic>>(
                (filter, trimmed),
                seq![update],
            ).0;
            r is Ok && same_numbers(r->Ok_0, validated(seq![update])->Ok_0[0])
        }),
{
    reveal(filtered_step);
    assert(picked(seq![update], every_index(1)) =~= seq![update]);
    assert forall|x: Binary32| x.finite() implies (
    #[trigger] trimmed.combines(seq![x])).finite() && trimmed.combines(seq![x]).rank()
        == x.rank() by {
        statistics_of_one_value(trimmed, MedianOfMeansStatistic { group_size: 1 }, x);
    }
    coordinates_pass_a_lone_update(trimmed, update);
}

/// One row with a positive weight, normalized, is that row.
proof fn lemma_one_weighted_row(w: Seq<Binary32>, weight: Binary32)
    requires
        all_finite(w),
        weight.finite(),
        weight.rank() > 0,
    ensures
        same_numbers(
            weighted_rows(
                seq![w],
                normalized(seq![weight], sum32(seq![weight])),
                w.len(),
                1,
            ),
            w,
        ),
{
    let m = seq![w];
    lemma_sum_of_one(weight);
    let total = sum32(seq![weight]);
    total.ranks_tell_apart(weight);
    weight.itself_over_itself();
    let shares = normalized(seq![weight], total);
    assert(shares[0] == Binary32::unit());
    assert(weighted_rows(m, shares, w.len(), 0) == zeros32(w.len()));
    let r = weighted_rows(m, shares, w.len(), 1);
    assert(r == held_all(plus_weighted(zeros32(w.len()), m[0], shares[0])));
    Binary32::nothing().zeros();
    assert forall|j: int| 0 <= j < r.len() implies (#[trigger] r[j]).finite() && w[j].finite()
        && r[j].rank() == w[j].rank() by {
        w[j].one_scales_nothing();
        w[j].zero_adds_nothing(Binary32::nothing());
    }
}

proof fn lemma_weiszfeld_of_one(
    weight: Binary32,
    w: Seq<Binary32>,
    estimate: Seq<Binary32>,
    times: nat,
)
    requires
        all_finite(w),
        weight.finite(),
        weight.rank() > 0,
        same_numbers(estimate, w),
    ensures
        same_numbers(weiszfeld(seq![weight], seq![w], estimate, times), w),
    decreases times,
{
    if times > 0 {
        let inverse = inverse_distance_weights(seq![weight], seq![w], estimate);
        let total = sum32(inverse);
        assert(inverse =~= seq![inverse[0]]);
        if !no_direction(total) {
            let x = inverse[0];
            lemma_empty_sum();
            assert(inverse.drop_last() =~= Seq::<Binary32>::empty());
            assert(sum32(Seq::<Binary32>::empty()) == empty_sum32());
            assert(total == empty_sum32().plus(x));
            if !x.finite() {
                x.overflow_stays(empty_sum32());
            }
            x.zero_adds_nothing(empty_sum32());
            Binary32::nothing().zeros();
            lemma_number(total);
            lemma_number(Binary32::nothing());
            lemma_one_weighted_row(w, x);
            lemma_weiszfeld_of_one(
                weight,
                w,
                weighted_rows(seq![w], normalized(inverse, total), w.len(), 1),
                (times - 1) as nat,
            );
        }
    }
}

/// The geometric median gives a lone update back.
pub proof fn the_geometric_median_passes_a_lone_update(
    statistic: GeometricMedianStatistic,
    update: Delta,
)
    requires
        validated(seq![update]) is Ok,
        update.num_samples > 0,
    ensures
        combined_vectors(statistic, seq![update]) is Ok,
        same_numbers(
            combined_vectors(statistic, seq![update])->Ok_0,
            validated(seq![update])->Ok_0[0],
        ),
{
    reveal(combined_vectors);
    let batch = seq![update];
    accepted_batches_are_fit(batch);
    let m = validated(batch)->Ok_0;
    let w = m[0];
    assert(m =~= seq![w]);
    let weight = Binary32::whole(update.num_samples as nat);
    Binary32::words_are_finite(update.num_samples as nat);
    assert(sample_weights(batch) =~= seq![weight]);
    lemma_sum_of_one(weight);
    Binary32::nothing().zeros();
    lemma_number(Binary32::nothing());
    lemma_number(sum32(seq![weight]));
    lemma_one_weighted_row(w, weight);
    lemma_weiszfeld_of_one(
        weight,
        w,
        weiszfeld_start(seq![weight], m),
        statistic.iterations as nat,
    );
}

/// The server optimizers give a lone update back in their first round.
pub proof fn optimizers_pass_a_first_lone_update(
    fedopt: FedOptMemory<SampleCountWeighting>,
    momentum: MomentumMemory<SampleCountWeighting>,
    update: Delta,
)
    requires
        validated(seq![update]) is Ok,
        update.num_samples > 0,
        fedopt.base is None,
        fedopt.optimizer is None,
        momentum.base is None,
        momentum.model is None,
    ensures
        ({
            let w = validated(seq![update])->Ok_0[0];
            let a = fedopt_step::<FedAvg>(fedopt, seq![update]).0;
            let b = momentum_step::<FedAvg>(momentum, seq![update]).0;
            &&& a is Ok && same_numbers(a->Ok_0, w)
            &&& b is Ok && same_numbers(b->Ok_0, w)
        }),
{
    reveal(fedopt_step);
    reveal(momentum_step);
    let batch = seq![update];
    accepted_batches_are_fit(batch);
    let m = validated(batch)->Ok_0;
    assert(m =~= seq![m[0]]);
    lemma_mean_of_one(m[0]);
    a_lone_update_is_its_own_mean(update);
}

} // verus!
