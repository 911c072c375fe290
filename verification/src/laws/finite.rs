//! Every method makes finite numbers of finite updates.
use vstd::prelude::*;
use crate::aggregator::Aggregator;
use crate::averaging::{normalized, weighted_mean, weighted_rows, FedAvg, SampleCountWeighting};
use crate::catalog::{planned, AggregatorParams, CatalogAggregator, CatalogState, Functions, Plan};
use crate::delta::{picked, Delta};
use crate::flanders::filter::{flanders_step, survivors, FlandersMemory};
use crate::float::binary32::Binary32;
use crate::float::binary64::Binary64;
use crate::history::History;
use crate::laws::averaging::{counts, is_share, lemma_counts_add_up, lemma_empty_sum, lemma_number, lemma_shared_rows, means_are_finite};
use crate::laws::clipping::clipping_stays_finite;
use crate::laws::confidence::trusted_averages_are_finite;
use crate::laws::optimizers::{fair_steps_are_finite, fedopt_continues, fedopt_steps_are_finite, momentum_continues, momentum_steps_are_finite};
use crate::laws::trust::{foolsgold_weights_are_fractions, is_logarithm_like};
use crate::linear::{distance32, empty_sum32, squared_differences, sum32};
use crate::optimization::fedavgm::{momentum_step, MomentumMemory};
use crate::optimization::fedopt::{fedopt_step, FedOptMemory};
use crate::optimization::qfedavg::{qfedavg_step, QFedAvgRule};
use crate::order::{sorted32, stable_order, stable_order_is_a_sorted_permutation};
use crate::robust::coordinate::{column, combined_columns, group_means, lemma_group_means, lemma_middle_finite, lemma_sorted_all_finite, lemma_trimmed_finite, CoordinateWiseAggregator, CoordinateWiseRobustStatistic, MedianOfMeansStatistic, MedianStatistic, TrimmedMeanStatistic};
use crate::robust::faba::{equal_share, even_mean};
use crate::robust::filter::{assumed_byzantine, filtered_step, lemma_ascending_len, FilteredAggregator, UpdateFilter};
use crate::robust::geometric::{combined_vectors, inverse_distance_weights, no_direction, sample_weights, weiszfeld, weiszfeld_floor, weiszfeld_start, GeometricMedianStatistic, RobustVectorStatistic};
use crate::robust::krum::{pool_of, BulyanFilter, KrumFilter};
use crate::temporal::clipping::clipping_step;
use crate::temporal::foolsgold::{absorbed, foolsgold_step, foolsgold_weights_of};
use crate::trusted::fltrust::fltrust_outcome;
use crate::trusted::zeno::{suspicion_ranks, Scores, ZenoAggregator};
use crate::weights::{accepted_batches_are_fit, all_finite, is_matrix, validated};

verus! {

/// An equal share is one.
proof fn lemma_equal_share(n: nat)
    requires
        0 < n <= u64::MAX,
    ensures
        is_share(equal_share(n)),
{
    Binary32::words_are_finite(n);
    Binary32::unit().unsigned_patterns();
    Binary32::unit().ratio_at_most_one(Binary32::whole(n));
}

/// The plain mean of finite rows is finite.
pub proof fn lemma_even_mean(m: Seq<Seq<Binary32>>, dim: nat)
    requires
        0 < m.len() <= u64::MAX,
        is_matrix(m, dim),
        forall|i: int| 0 <= i < m.len() ==> all_finite(#[trigger] m[i]),
    ensures
        even_mean(m, dim).len() == dim,
        all_finite(even_mean(m, dim)),
{
    lemma_equal_share(m.len());
    lemma_shared_rows(
        m,
        Seq::new(m.len(), |i: int| equal_share(m.len())),
        dim,
        m.len(),
    );
}

/// There is one weighting by sample counts.
proof fn lemma_one_weighting(w: SampleCountWeighting)
    ensures
        w == SampleCountWeighting,
{
    match w {
        SampleCountWeighting => {},
    }
}

/// What any filter leaves has a finite mean.
pub proof fn filtered_averages_are_finite<F: UpdateFilter>(
    s: (F, SampleCountWeighting),
    batch: Seq<Delta>,
)
    requires
        filtered_step::<F, FedAvg>(s, batch).0 is Ok,
    ensures
        all_finite(filtered_step::<F, FedAvg>(s, batch).0->Ok_0),
{
    reveal(filtered_step);
    lemma_one_weighting(s.1);
    means_are_finite(picked(batch, s.0.selects(batch)->Ok_0));
}

/// What FLANDERS leaves has a finite mean.
pub proof fn flanders_averages_are_finite(
    s: FlandersMemory<SampleCountWeighting>,
    batch: Seq<Delta>,
)
    requires
        flanders_step::<FedAvg>(s, batch).0 is Ok,
    ensures
        all_finite(flanders_step::<FedAvg>(s, batch).0->Ok_0),
{
    reveal(flanders_step);
    lemma_one_weighting(s.base);
    let m = validated(batch)->Ok_0;
    means_are_finite(picked(batch, survivors(s.tuning, s.history, s.global, batch, m)));
}

/// The trimmed mean, the median and the median of means of finite values are
/// finite.
pub proof fn statistics_are_finite(
    trimmed: TrimmedMeanStatistic,
    grouped: MedianOfMeansStatistic,
    values: Seq<Binary32>,
)
    requires
        0 < values.len() <= usize::MAX,
        all_finite(values),
    ensures
        trimmed.combines(values).finite(),
        MedianStatistic.combines(values).finite(),
        grouped.combines(values).finite(),
{
    lemma_trimmed_finite(trimmed, values);
    lemma_sorted_all_finite(values);
    lemma_middle_finite(sorted32(values));
    let size: nat = if grouped.group_size == 0 {
        1
    } else {
        grouped.group_size as nat
    };
    lemma_group_means(values, size);
    lemma_sorted_all_finite(group_means(values, size));
    lemma_middle_finite(sorted32(group_means(values, size)));
}

/// A statistic that gives a finite number for finite ones gives finite
/// weights for every accepted batch.
proof fn lemma_columns<S: CoordinateWiseRobustStatistic>(statistic: S, batch: Seq<Delta>)
    requires
        batch.len() <= usize::MAX,
        combined_columns(statistic, batch) is Ok,
        forall|values: Seq<Binary32>|
            0 < values.len() <= usize::MAX && all_finite(values) ==> (#[trigger] statistic.combines(
                values,
            )).finite(),
    ensures
        all_finite(combined_columns(statistic, batch)->Ok_0),
{
    reveal(combined_columns);
    accepted_batches_are_fit(batch);
    let m = validated(batch)->Ok_0;
    let a = combined_columns(statistic, batch)->Ok_0;
    assert forall|k: int| 0 <= k < a.len() implies (#[trigger] a[k]).finite() by {
        let values = column(m, k);
        assert forall|i: int| 0 <= i < values.len() implies (#[trigger] values[i]).finite() by {
            assert(all_finite(m[i]));
            assert(m[i].len() == m[0].len());
            assert(m[i][k].finite());
        }
        assert(statistic.combines(values).finite());
    }
}

/// The coordinate-wise trimmed mean, median and median of means of an accepted
/// batch are finite.
pub proof fn coordinate_methods_are_finite(
    trimmed: TrimmedMeanStatistic,
    grouped: MedianOfMeansStatistic,
    batch: Seq<Delta>,
)
    requires
        batch.len() <= usize::MAX,
    ensures
        combined_columns(trimmed, batch) is Ok ==> all_finite(
            combined_columns(trimmed, batch)->Ok_0,
        ),
        combined_columns(MedianStatistic, batch) is Ok ==> all_finite(
            combined_columns(MedianStatistic, batch)->Ok_0,
        ),
        combined_columns(grouped, batch) is Ok ==> all_finite(
            combined_columns(grouped, batch)->Ok_0,
        ),
{
    assert forall|values: Seq<Binary32>| 0 < values.len() <= usize::MAX && all_finite(values) implies
        (#[trigger] trimmed.combines(values)).finite() by {
        statistics_are_finite(trimmed, grouped, values);
    }
    assert forall|values: Seq<Binary32>| 0 < values.len() <= usize::MAX && all_finite(values) implies
        (#[trigger] MedianStatistic.combines(values)).finite() by {
        statistics_are_finite(trimmed, grouped, values);
    }
    assert forall|values: Seq<Binary32>| 0 < values.len() <= usize::MAX && all_finite(values) implies
        (#[trigger] grouped.combines(values)).finite() by {
        statistics_are_finite(trimmed, grouped, values);
    }
    if combined_columns(trimmed, batch) is Ok {
        lemma_columns(trimmed, batch);
    }
    if combined_columns(MedianStatistic, batch) is Ok {
        lemma_columns(MedianStatistic, batch);
    }
    if combined_columns(grouped, batch) is Ok {
        lemma_columns(grouped, batch);
    }
}

/// Bulyan gives finite weights.
pub proof fn bulyan_is_finite(
    filter: BulyanFilter,
    trimmed: TrimmedMeanStatistic,
    batch: Seq<Delta>,
)
    requires
        batch.len() <= usize::MAX,
        filtered_step::<BulyanFilter, CoordinateWiseAggregator<TrimmedMeanStatistic>>(
            (filter, trimmed),
            batch,
        ).0 is Ok,
    ensures
        all_finite(
            filtered_step::<BulyanFilter, CoordinateWiseAggregator<TrimmedMeanStatistic>>(
                (filter, trimmed),
                batch,
            ).0->Ok_0,
        ),
{
    reveal(filtered_step);
    filter.selects_within(batch);
    let indices = filter.selects(batch)->Ok_0;
    lemma_ascending_len(indices, batch.len());
    coordinate_methods_are_finite(
        trimmed,
        MedianOfMeansStatistic { group_size: 1 },
        picked(batch, indices),
    );
}

/// FoolsGold gives finite weights, whatever it remembers.
pub proof fn foolsgold_is_finite<L: Fn(Binary32) -> Binary32>(
    ln: L,
    history: History,
    batch: Seq<Delta>,
)
    requires
        is_logarithm_like(ln),
        batch.len() <= usize::MAX,
        foolsgold_step(ln, history, batch).0 is Ok,
    ensures
        all_finite(foolsgold_step(ln, history, batch).0->Ok_0),
{
    reveal(foolsgold_step);
    accepted_batches_are_fit(batch);
    let m = validated(batch)->Ok_0;
    let n = batch.len();
    if n == 1 {
        assert(all_finite(m[0]));
    } else {
        let seen = absorbed(history, batch, m, n).1;
        lemma_absorbed_len(history, batch, m, n);
        let weights = foolsgold_weights_of(ln, seen);
        lemma_even_mean(m, m[0].len());
        let scaled = Seq::new(m.len(), |i: int| weights[i].times(equal_share(m.len())));
        lemma_equal_share(m.len());
        assert forall|i: int| 0 <= i < m.len() implies is_share(#[trigger] scaled[i]) by {
            foolsgold_weights_are_fractions(ln, seen, i);
            let (w, e) = (weights[i], equal_share(m.len()));
            w.not_negative_is_absolute();
            e.small_factor_shrinks(w);
            e.times_commutes(w);
        }
        lemma_shared_rows(m, scaled, m[0].len(), m.len());
    }
}

proof fn lemma_absorbed_len(history: History, batch: Seq<Delta>, m: Seq<Seq<Binary32>>, k: nat)
    ensures
        absorbed(history, batch, m, k).1.len() == k,
    decreases k,
{
    if k > 0 {
        lemma_absorbed_len(history, batch, m, (k - 1) as nat);
    }
}

/// An adaptive optimizer on the plain mean gives finite weights.
pub proof fn adaptive_steps_are_finite(s: FedOptMemory<SampleCountWeighting>, batch: Seq<Delta>)
    requires
        batch.len() <= usize::MAX,
        s.base is None,
    ensures
        fedopt_step::<FedAvg>(s, batch).0 is Ok ==> all_finite(
            fedopt_step::<FedAvg>(s, batch).0->Ok_0,
        ),
        fedopt_step::<FedAvg>(s, batch).1.base is None,
{
    assert(fedopt_step::<FedAvg>(s, batch).1.base is None) by {
        reveal(fedopt_step);
    }
    if fedopt_step::<FedAvg>(s, batch).0 is Ok {
        assert(batch.len() > 0 && validated(batch) is Ok) by {
            reveal(fedopt_step);
        }
        accepted_batches_are_fit(batch);
        if fedopt_continues(s, batch) {
            fedopt_steps_are_finite::<FedAvg>(s, batch);
        } else {
            reveal(fedopt_step);
            let m = validated(batch)->Ok_0;
            lemma_even_mean(m, m[0].len());
        }
    }
}

/// Server momentum on federated averaging gives finite weights.
pub proof fn momentum_is_finite(s: MomentumMemory<SampleCountWeighting>, batch: Seq<Delta>)
    requires
        batch.len() <= usize::MAX,
        s.base is None,
    ensures
        momentum_step::<FedAvg>(s, batch).0 is Ok ==> all_finite(
            momentum_step::<FedAvg>(s, batch).0->Ok_0,
        ),
        momentum_step::<FedAvg>(s, batch).1.base is None,
{
    assert(momentum_step::<FedAvg>(s, batch).1.base is None) by {
        reveal(momentum_step);
    }
    if momentum_step::<FedAvg>(s, batch).0 is Ok {
        assert(batch.len() > 0 && validated(batch) is Ok) by {
            reveal(momentum_step);
        }
        if momentum_continues(s, batch) {
            momentum_steps_are_finite::<FedAvg>(s, batch);
        } else {
            reveal(momentum_step);
            means_are_finite(batch);
        }
    }
}

/// q-FedAvg gives finite weights.
pub proof fn fair_averages_are_finite<P: Fn(Binary64, Binary64) -> Binary64>(
    rule: QFedAvgRule<P>,
    model: Option<Seq<Binary32>>,
    batch: Seq<Delta>,
)
    requires
        qfedavg_step(rule, model, batch).0 is Ok,
    ensures
        all_finite(qfedavg_step(rule, model, batch).0->Ok_0),
{
    fair_steps_are_finite(rule, model, batch);
    let r = qfedavg_step(rule, model, batch).0;
    if r == weighted_mean(SampleCountWeighting, batch) {
        means_are_finite(batch);
    } else {
    }
}

/// A length: a number that is not below zero, be it an infinity.
pub open spec fn is_length(x: Binary32) -> bool {
    !x.nan() && 0 <= x.rank()
}

/// The distance between finite vectors is a number.
pub proof fn lemma_distance_is_number(w: Seq<Binary32>, v: Seq<Binary32>)
    requires
        w.len() == v.len(),
        all_finite(w),
        all_finite(v),
    ensures
        is_length(distance32(w, v)),
{
    let s = squared_differences(w, v);
    assert forall|i: int| 0 <= i < s.len() implies is_length(#[trigger] s[i]) by {
        assert(w[i].finite() && v[i].finite());
        lemma_number(v[i]);
        w[i].less_a_number(v[i]);
        w[i].minus(v[i]).square_is_not_negative();
    }
    lemma_lengths_add_up(s);
    sum32(s).root_of_a_length();
}

pub proof fn lemma_lengths_add_up(s: Seq<Binary32>)
    requires
        forall|i: int| 0 <= i < s.len() ==> is_length(#[trigger] s[i]),
    ensures
        is_length(sum32(s)),
    decreases s.len(),
{
    if s.len() == 0 {
        lemma_empty_sum();
        lemma_number(empty_sum32());
    } else {
        let rest = s.drop_last();
        assert forall|i: int| 0 <= i < rest.len() implies is_length(#[trigger] rest[i]) by {
            assert(is_length(s[i]));
        }
        lemma_lengths_add_up(rest);
        assert(is_length(s[s.len() - 1]));
        sum32(rest).lengths_add_up(s.last());
    }
}

/// Normalized, weights that are not negative are shares.
proof fn lemma_normalized_shares(raw: Seq<Binary32>)
    requires
        forall|i: int| 0 <= i < raw.len() ==> is_length(#[trigger] raw[i]),
        sum32(raw).finite(),
        sum32(raw).rank() > 0,
    ensures
        forall|i: int| 0 <= i < raw.len() ==> is_share(#[trigger] normalized(raw, sum32(raw))[i]),
{
    let total = sum32(raw);
    assert forall|i: int| 0 <= i < raw.len() implies is_share(
        #[trigger] normalized(raw, total)[i],
    ) by {
        lemma_part_of_sum(raw, i);
        assert(is_length(raw[i]));
        raw[i].ratio_at_most_one(total);
    }
}

/// Each of several weights is at most their sum.
proof fn lemma_part_of_sum(s: Seq<Binary32>, i: int)
    requires
        0 <= i < s.len(),
        forall|k: int| 0 <= k < s.len() ==> is_length(#[trigger] s[k]),
        sum32(s).finite(),
    ensures
        s[i].finite(),
        s[i].rank() <= sum32(s).rank(),
    decreases s.len(),
{
    let rest = s.drop_last();
    assert forall|k: int| 0 <= k < rest.len() implies is_length(#[trigger] rest[k]) by {
        assert(is_length(s[k]));
    }
    lemma_lengths_add_up(rest);
    assert(is_length(s[s.len() - 1]));
    let (a, b) = (sum32(rest), s.last());
    if !a.finite() {
        a.overflow_stays(b);
    }
    if !b.finite() {
        b.overflow_stays(a);
    }
    a.plus_grows(b);
    b.plus_grows(a);
    a.plus_commutes(b);
    if i < s.len() - 1 {
        lemma_part_of_sum(rest, i);
    }
}

proof fn lemma_weiszfeld_finite(
    weights: Seq<Binary32>,
    m: Seq<Seq<Binary32>>,
    estimate: Seq<Binary32>,
    times: nat,
)
    requires
        m.len() > 0,
        weights.len() == m.len(),
        is_matrix(m, m[0].len()),
        estimate.len() == m[0].len(),
        all_finite(estimate),
        forall|i: int| 0 <= i < m.len() ==> all_finite(#[trigger] m[i]),
        forall|i: int|
            0 <= i < m.len() ==> (#[trigger] weights[i]).finite() && 0 <= weights[i].rank(),
    ensures
        all_finite(weiszfeld(weights, m, estimate, times)),
    decreases times,
{
    if times > 0 {
        let inverse = inverse_distance_weights(weights, m, estimate);
        let total = sum32(inverse);
        assert forall|i: int| 0 <= i < inverse.len() implies is_length(#[trigger] inverse[i]) by {
            assert(all_finite(m[i]));
            assert(m[i].len() == m[0].len());
            lemma_distance_is_number(m[i], estimate);
            weiszfeld_floor().unsigned_patterns();
            let d = distance32(m[i], estimate).larger(weiszfeld_floor());
            assert(weights[i].finite());
            weights[i].over_a_length(d);
        }
        lemma_lengths_add_up(inverse);
        if !no_direction(total) {
            Binary32::nothing().zeros();
            lemma_number(Binary32::nothing());
            lemma_normalized_shares(inverse);
            let shares = normalized(inverse, total);
            lemma_shared_rows(m, shares, m[0].len(), m.len());
            lemma_weiszfeld_finite(
                weights,
                m,
                weighted_rows(m, shares, m[0].len(), m.len()),
                (times - 1) as nat,
            );
        }
    }
}

/// The geometric median of an accepted batch is finite.
pub proof fn the_geometric_median_is_finite(
    statistic: GeometricMedianStatistic,
    batch: Seq<Delta>,
)
    requires
        combined_vectors(statistic, batch) is Ok,
    ensures
        all_finite(combined_vectors(statistic, batch)->Ok_0),
{
    reveal(combined_vectors);
    accepted_batches_are_fit(batch);
    let m = validated(batch)->Ok_0;
    let weights = sample_weights(batch);
    assert forall|i: int| 0 <= i < m.len() implies (#[trigger] weights[i]).finite() && 0
        <= weights[i].rank() by {
        Binary32::words_are_finite(batch[i].num_samples as nat);
    }
    assert forall|i: int| 0 <= i < weights.len() implies is_length(#[trigger] weights[i]) by {
        lemma_number(weights[i]);
    }
    lemma_lengths_add_up(weights);
    let total = sum32(weights);
    assert(weights =~= counts(batch));
    lemma_counts_add_up(batch, batch.len());
    assert(weights.take(batch.len() as int) =~= weights);
    Binary32::nothing().zeros();
    lemma_number(Binary32::nothing());
    if Binary32::nothing().below(total) {
        lemma_normalized_shares(weights);
        lemma_shared_rows(m, normalized(weights, total), m[0].len(), m.len());
    }
    lemma_weiszfeld_finite(
        weights,
        m,
        weiszfeld_start(weights, m),
        statistic.iterations as nat,
    );
}

/// Zeno gives finite weights, whatever the scores.
pub proof fn scored_averages_are_finite(
    s: (Binary32, Binary32, Option<Scores>),
    batch: Seq<Delta>,
)
    requires
        batch.len() <= usize::MAX,
        ZenoAggregator::step(s, batch).0 is Ok,
    ensures
        all_finite(ZenoAggregator::step(s, batch).0->Ok_0),
{
    accepted_batches_are_fit(batch);
    let m = validated(batch)->Ok_0;
    let ranks = suspicion_ranks(batch, m, s.2->0, s.1);
    stable_order_is_a_sorted_permutation(ranks);
    let survivors = stable_order(ranks).take(batch.len() - assumed_byzantine(s.0, batch.len()));
    let pool = pool_of(m, survivors);
    assert forall|i: int| 0 <= i < pool.len() implies (#[trigger] pool[i]).len() == m[0].len()
        && all_finite(pool[i]) by {
        assert(stable_order(ranks)[i] < m.len());
        assert(all_finite(m[survivors[i] as int]));
        assert(m[survivors[i] as int].len() == m[0].len());
    }
    lemma_even_mean(pool, m[0].len());
}

/// What FLANDERS leaves to Krum has a finite result.
proof fn lemma_flanders_over_krum(
    s: FlandersMemory<(KrumFilter, SampleCountWeighting)>,
    batch: Seq<Delta>,
)
    requires
        flanders_step::<FilteredAggregator<KrumFilter, FedAvg>>(s, batch).0 is Ok,
    ensures
        all_finite(flanders_step::<FilteredAggregator<KrumFilter, FedAvg>>(s, batch).0->Ok_0),
{
    reveal(flanders_step);
    let m = validated(batch)->Ok_0;
    filtered_averages_are_finite(
        s.base,
        picked(batch, survivors(s.tuning, s.history, s.global, batch, m)),
    );
}

/// Whether a method of the catalog is in a state from which its results are
/// finite: what it was given from outside is. Nothing is asked of what it
/// remembers of the updates themselves. The methods that the caller supplies
/// are left out.
pub open spec fn is_sound<L: Fn(Binary32) -> Binary32, P, N, S>(
    s: CatalogState<L, P, N, S>,
) -> bool {
    match s {
        CatalogState::FoolsGold((ln, _)) => is_logarithm_like(ln),
        CatalogState::CenteredClipping((radius, reference)) => radius.finite() && 0
            <= radius.rank() && (reference is Some ==> all_finite(reference->0)),
        CatalogState::FlTrust(reference) => reference is Some ==> all_finite(reference->0.global)
            && all_finite(reference->0.trained),
        CatalogState::FedAvgM(t) => t.base is None,
        CatalogState::FedOpt(t) => t.base is None,
        CatalogState::FedNova(_) => false,
        CatalogState::Scaffold(_) => false,
        _ => true,
    }
}

/// Whatever the method, and whatever rounds came before: a result is finite,
/// and the method stays in a state from which the next one is.
pub proof fn every_aggregate_is_finite<
    L: Fn(Binary32) -> Binary32,
    P: Fn(Binary64, Binary64) -> Binary64,
    N: Aggregator,
    S: Aggregator,
>(s: CatalogState<L, P, N::State, S::State>, batch: Seq<Delta>)
    requires
        batch.len() <= usize::MAX,
        is_sound(s),
    ensures
        CatalogAggregator::<L, P, N, S>::step(s, batch).0 is Ok ==> all_finite(
            CatalogAggregator::<L, P, N, S>::step(s, batch).0->Ok_0,
        ),
        is_sound(CatalogAggregator::<L, P, N, S>::step(s, batch).1),
{
    let ok = CatalogAggregator::<L, P, N, S>::step(s, batch).0 is Ok;
    match s {
        CatalogState::FedAvg(x) => {
            if ok {
                lemma_one_weighting(x);
                means_are_finite(batch);
            }
        },
        CatalogState::Krum(x) => {
            if ok {
                filtered_averages_are_finite(x, batch);
            }
        },
        CatalogState::MultiKrum(x) => {
            if ok {
                filtered_averages_are_finite(x, batch);
            }
        },
        CatalogState::TrimmedMean(x) => {
            coordinate_methods_are_finite(x, MedianOfMeansStatistic { group_size: 1 }, batch);
        },
        CatalogState::Median(_) => {
            coordinate_methods_are_finite(
                TrimmedMeanStatistic { byzantine_fraction: Binary32::nothing() },
                MedianOfMeansStatistic { group_size: 1 },
                batch,
            );
        },
        CatalogState::Faba(x) => {
            if ok {
                filtered_averages_are_finite(x, batch);
            }
        },
        CatalogState::Bulyan(x) => {
            if ok {
                bulyan_is_finite(x.0, x.1, batch);
            }
        },
        CatalogState::GeometricMedian(x) => {
            if ok {
                the_geometric_median_is_finite(x, batch);
            }
        },
        CatalogState::MedianOfMeans(x) => {
            coordinate_methods_are_finite(
                TrimmedMeanStatistic { byzantine_fraction: Binary32::nothing() },
                x,
                batch,
            );
        },
        CatalogState::DivideAndConquer(x) => {
            if ok {
                filtered_averages_are_finite(x, batch);
            }
        },
        CatalogState::FoolsGold(x) => {
            if ok {
                foolsgold_is_finite(x.0, x.1, batch);
            }
        },
        CatalogState::CenteredClipping(x) => {
            if batch.len() > 0 && validated(batch) is Ok {
                clipping_stays_finite(x.0, x.1, batch);
            } else {
                reveal(clipping_step);
            }
        },
        CatalogState::FlTrust(x) => {
            reveal(fltrust_outcome);
            if ok {
                trusted_averages_are_finite(x->0, batch);
            }
        },
        CatalogState::Flanders(x) => {
            if ok {
                lemma_flanders_over_krum(x, batch);
            }
        },
        CatalogState::QFedAvg(x) => {
            if ok {
                fair_averages_are_finite(x.0, x.1, batch);
            }
        },
        CatalogState::FedAvgM(x) => {
            momentum_is_finite(x, batch);
        },
        CatalogState::FedOpt(x) => {
            adaptive_steps_are_finite(x, batch);
        },
        CatalogState::FedNova(_) => {},
        CatalogState::Scaffold(_) => {},
    }
}

/// The catalog builds its methods in such states.
pub proof fn methods_are_built_sound<
    L: Fn(Binary32) -> Binary32,
    P: Fn(Binary64, Binary64) -> Binary64,
    N: Aggregator,
    S: Aggregator,
>(
    name: Seq<char>,
    params: AggregatorParams,
    functions: Functions<L, P>,
    fednova: N,
)
    requires
        planned::<L, P, N, S>(name, params, functions, fednova) is Ok,
        name != "fednova"@,
        name != "scaffold"@,
        params.clip_radius.finite(),
        0 <= params.clip_radius.rank(),
        is_logarithm_like(functions.ln),
    ensures
        planned::<L, P, N, S>(name, params, functions, fednova)->Ok_0 matches Plan::Method(s)
            && is_sound(s),
{
}

} // verus!
