use conflux::aggregator::Aggregator;
use conflux::averaging::FedAvg;
use conflux::delta::ClientDelta;
use conflux::error::AggregatorError;
use conflux::federation::demo::Lcg;
use conflux::flanders::filter::FlandersAggregator;
use conflux::float::binary32::Binary32;
use conflux::float::binary64::Binary64;
use conflux::optimization::fedavgm::FedAvgMAggregator;
use conflux::optimization::fedopt::{FedOptAggregator, FedOptParams, FedOptVariant};
use conflux::optimization::qfedavg::QFedAvgAggregator;
use conflux::order::{order32, sort32};
use conflux::privacy::mechanism::GaussianClippingPrivacy;
use conflux::robust::coordinate::{
    mean_of, CoordinateWiseAggregator, CoordinateWiseRobustStatistic, MedianOfMeansStatistic,
    MedianStatistic, TrimmedMeanStatistic,
};
use conflux::robust::divide::DivideAndConquerFilter;
use conflux::robust::faba::FabaFilter;
use conflux::robust::filter::{byzantine_count, FilteredAggregator, UpdateFilter};
use conflux::robust::geometric::{GeometricMedianStatistic, VectorRobustAggregator};
use conflux::robust::krum::{KrumFilter, MultiKrumFilter};
use conflux::temporal::clipping::CenteredClippingAggregator;
use conflux::temporal::foolsgold::foolsgold_weights;
use conflux::trusted::fltrust::{FlTrustAggregator, TrustedReference};

fn b(x: f32) -> Binary32 {
    Binary32::from_bits(x.to_bits())
}

fn f(x: Binary32) -> f32 {
    f32::from_bits(x.to_bits())
}

fn binary(values: &[f32]) -> Vec<Binary32> {
    values.iter().map(|x| b(*x)).collect()
}

fn floats(values: &[Binary32]) -> Vec<f32> {
    values.iter().map(|x| f(*x)).collect()
}

fn ln(x: Binary32) -> Binary32 {
    b(f(x).ln())
}

fn pow(x: Binary64, y: Binary64) -> Binary64 {
    let power = f64::from_bits(x.to_bits()).powf(f64::from_bits(y.to_bits()));
    Binary64::from_bits(power.to_bits())
}

fn delta(client_id: &str, weights: &[f32]) -> ClientDelta {
    ClientDelta {
        client_id: client_id.to_string(),
        round: 1,
        weights: weights.iter().flat_map(|w| w.to_le_bytes()).collect(),
        num_samples: 10,
        local_loss: None,
    }
}

fn crowd(n: usize, weights: &[f32]) -> Vec<ClientDelta> {
    (0..n).map(|i| delta(&format!("c{i}"), weights)).collect()
}

#[test]
fn a_mean_of_finite_numbers_is_finite() {
    let two = FedAvg::default().aggregate(&crowd(2, &[f32::MAX])).unwrap();
    assert_eq!(floats(&two), vec![f32::MAX]);

    let ten = FedAvg::default().aggregate(&crowd(10, &[f32::MAX])).unwrap();
    assert_eq!(floats(&ten), vec![f32::MAX]);

    let mut mixed = crowd(10, &[f32::MAX]);
    mixed.extend(crowd(10, &[f32::MIN]));
    let mixed = FedAvg::default().aggregate(&mixed).unwrap();
    assert!(f(mixed[0]).is_finite());
}

#[test]
fn krum_gives_back_one_of_the_updates() {
    let rows = [[0.1f32, 7.0], [0.2, 7.5], [0.15, 7.25], [-900.0, 3.0]];
    let batch: Vec<ClientDelta> = rows.iter().map(|r| delta("c", r)).collect();
    let mut krum = FilteredAggregator::new(
        KrumFilter {
            byzantine_fraction: b(0.25),
        },
        FedAvg::default(),
    );
    let result = floats(&krum.aggregate(&batch).unwrap());
    assert!(rows.iter().any(|r| r.to_vec() == result), "got {result:?}");
}

#[test]
fn filters_remove_the_assumed_number() {
    let batch: Vec<ClientDelta> = (0..7)
        .map(|i| delta("c", &[i as f32, (i * i) as f32]))
        .collect();
    for fraction in [0.0, 0.15, 0.3, 0.99, 5.0, f32::NAN] {
        let hostile = byzantine_count(b(fraction), 7);
        assert!(hostile < 7);
        let krum = MultiKrumFilter {
            byzantine_fraction: b(fraction),
        };
        let faba = FabaFilter {
            byzantine_fraction: b(fraction),
        };
        let divide = DivideAndConquerFilter {
            byzantine_fraction: b(fraction),
            ..DivideAndConquerFilter::default()
        };
        let left = 7 - hostile;
        assert_eq!(krum.filter(&batch).unwrap().selected_indices.len(), left);
        assert_eq!(faba.filter(&batch).unwrap().selected_indices.len(), left);
        assert_eq!(divide.filter(&batch).unwrap().selected_indices.len(), left);
    }
}

#[test]
fn a_minority_cannot_move_the_median_out_of_the_range_of_the_others() {
    for hostile in [f32::MAX, f32::MIN, 0.0] {
        let odd = binary(&[1.0, 1.5, 1.25, hostile, hostile]);
        let median = f(MedianStatistic.combine(&odd));
        assert!((1.0..=1.5).contains(&median), "got {median}");
        let even = binary(&[1.0, 1.5, 1.25, 1.125, hostile, hostile]);
        let median = f(MedianStatistic.combine(&even));
        assert!((1.0..=1.5).contains(&median), "got {median}");
    }
}

#[test]
fn an_even_median_lies_between_the_two_in_the_middle() {
    let median = MedianStatistic.combine(&binary(&[f32::MAX, f32::MAX]));
    assert_eq!(f(median), f32::MAX);
    let median = MedianStatistic.combine(&binary(&[f32::MIN, f32::MIN]));
    assert_eq!(f(median), f32::MIN);
    let median = MedianStatistic.combine(&binary(&[1e-45, 1e-45]));
    assert_eq!(f(median), 1e-45);
}

#[test]
fn a_trimmed_mean_of_the_largest_numbers_is_the_largest_number() {
    let statistic = TrimmedMeanStatistic {
        byzantine_fraction: b(0.0),
    };
    for n in [2, 3, 7, 10] {
        let mean = f(statistic.combine(&binary(&vec![f32::MAX; n])));
        assert!(mean.is_finite() && mean > 3.4e38, "{n}: got {mean}");
    }
}

#[test]
fn updates_at_both_ends_of_the_range_have_finite_aggregates() {
    let mut batch = crowd(6, &[f32::MAX, f32::MIN, 1.0]);
    batch.extend(crowd(6, &[f32::MIN, f32::MAX, 1.0]));
    let trimmed = TrimmedMeanStatistic {
        byzantine_fraction: b(0.1),
    };
    let results = [
        CoordinateWiseAggregator::new(MedianStatistic).aggregate(&batch),
        CoordinateWiseAggregator::new(trimmed).aggregate(&batch),
        VectorRobustAggregator::new(GeometricMedianStatistic::default()).aggregate(&batch),
        FedAvg::default().aggregate(&batch),
    ];
    for result in results {
        let weights = floats(&result.unwrap());
        assert!(weights.iter().all(|w| w.is_finite()), "got {weights:?}");
    }
}

#[test]
fn a_median_of_means_stays_finite_at_both_ends_of_the_range() {
    let statistic = MedianOfMeansStatistic { group_size: 2 };
    let torn = binary(&[f32::MAX, f32::MAX, f32::MIN, f32::MIN]);
    assert_eq!(f(statistic.combine(&torn)), 0.0);
    let whole = binary(&[f32::MAX, f32::MAX, f32::MIN, f32::MIN, 1.0, 3.0]);
    assert_eq!(f(statistic.combine(&whole)), 2.0);
}

#[test]
fn a_move_twice_as_long_buys_no_influence() {
    let run = |far: f32| {
        let mut fltrust = FlTrustAggregator::new();
        fltrust.set_reference(TrustedReference {
            global_weights: binary(&[0.0, 0.0, 0.0]),
            reference_weights: binary(&[0.7, 1.3, -0.2]),
        });
        let batch = [
            delta("a", &[0.3 * far, 1.1 * far, 0.1 * far]),
            delta("b", &[0.9, 0.7, -0.4]),
        ];
        floats(&fltrust.aggregate(&batch).unwrap())
    };
    let once = run(1.0);
    for far in [2.0, 4.0, 1024.0, 0.5] {
        assert_eq!(run(far), once, "{far}");
    }
}

#[test]
fn trust_makes_finite_weights_of_extreme_updates() {
    let mut batch = crowd(3, &[f32::MAX, f32::MIN]);
    batch.extend(crowd(3, &[f32::MIN, f32::MAX]));
    batch.push(delta("tiny", &[1e-45, 1e-45]));
    for reference in [[1.0, 1.0], [f32::MAX, f32::MAX], [f32::MAX, f32::MIN]] {
        for global in [[0.0, 0.0], [f32::MIN, f32::MAX]] {
            let mut aggregator = FlTrustAggregator::new();
            aggregator.set_reference(TrustedReference {
                global_weights: binary(&global),
                reference_weights: binary(&reference),
            });
            let weights = floats(&aggregator.aggregate(&batch).unwrap());
            assert!(weights.iter().all(|w| w.is_finite()), "got {weights:?}");
        }
    }
}

#[test]
fn trimming_removes_what_it_is_meant_to() {
    let statistic = TrimmedMeanStatistic {
        byzantine_fraction: b(0.4),
    };
    let values = binary(&[f32::MAX, 1.0, 1.0, 1.0, f32::MIN]);
    assert_eq!(f(statistic.combine(&values)), 1.0);
}

#[test]
fn orders_are_stable() {
    let values = binary(&[2.0, -1.0, 2.0, -0.0, 0.0, f32::NEG_INFINITY]);
    assert_eq!(order32(&values), vec![5, 1, 3, 4, 0, 2]);
    assert_eq!(
        floats(&sort32(&values)),
        vec![f32::NEG_INFINITY, -1.0, -0.0, 0.0, 2.0, 2.0]
    );
}

#[test]
fn a_refused_step_keeps_the_model() {
    let params = FedOptParams {
        server_learning_rate: b(f32::MAX),
        ..FedOptParams::for_variant(FedOptVariant::Adam)
    };
    let mut adam = FedOptAggregator::with_params(FedOptVariant::Adam, params);
    adam.aggregate(&crowd(2, &[1.0])).unwrap();
    let refused = adam.aggregate(&crowd(2, &[1e30])).unwrap_err();
    match refused {
        AggregatorError::NonFiniteWeights { client_id, index } => {
            assert_eq!(client_id, "<fedadam server optimizer>");
            assert_eq!(index, 0);
        }
        other => panic!("expected NonFiniteWeights, got {other:?}"),
    }
    let global = adam.optimizer.as_ref().unwrap().global.clone();
    assert_eq!(floats(&global), vec![1.0]);
    assert_eq!(floats(&adam.moments().unwrap().0), vec![0.0]);

    let mut momentum = FedAvgMAggregator::new();
    momentum.server_learning_rate = b(f32::MAX);
    momentum.aggregate(&crowd(2, &[1.0])).unwrap();
    assert!(momentum.aggregate(&crowd(2, &[1e30])).is_err());
    assert_eq!(floats(&momentum.model.as_ref().unwrap().0), vec![1.0]);

    let mut steady = FedAvgMAggregator::new();
    steady.aggregate(&crowd(1, &[0.0])).unwrap();
    steady.aggregate(&crowd(1, &[f32::MAX])).unwrap();
    assert_eq!(floats(&steady.momentum().unwrap()), vec![f32::MAX]);
    assert!(steady.aggregate(&crowd(1, &[f32::MAX])).is_err());
    assert_eq!(floats(&steady.momentum().unwrap()), vec![f32::MAX]);
}

#[test]
fn without_a_preference_fairness_is_averaging() {
    let mut fair = QFedAvgAggregator::with_params(b(0.0), b(1.0), pow);
    fair.aggregate(&crowd(2, &[0.0])).unwrap();
    let mut batch = vec![delta("a", &[0.0]), delta("b", &[10.0])];
    batch[0].num_samples = 1;
    batch[1].num_samples = 99;
    for update in &mut batch {
        update.local_loss = Some(b(1.0));
    }
    let result = floats(&fair.aggregate(&batch).unwrap());
    let plain = floats(&FedAvg::default().aggregate(&batch).unwrap());
    assert_eq!(result, plain);
    assert!((result[0] - 9.9).abs() < 1e-4, "got {result:?}");
}

#[test]
fn identical_histories_get_no_weight() {
    let same = |v: &[f32]| vec![binary(v), binary(v)];
    for v in [[1.0, 2.0, 3.0], [0.1, 0.7, -0.3], [1e-30, 2e-30, 3e-30], [3e38, 1e38, 2e38]] {
        let weights = foolsgold_weights(&ln, &same(&v));
        assert_eq!(floats(&weights), vec![0.0, 0.0], "{v:?}");
    }
}

#[test]
fn flanders_excludes_the_assumed_number() {
    let mut flanders = FlandersAggregator::new(FedAvg::default());
    flanders.tuning.byzantine_fraction = b(0.4);
    let batch: Vec<ClientDelta> = [("a", 1.0), ("b", 1.0), ("c", 1.0), ("d", 1.0), ("e", 6.0)]
        .iter()
        .map(|(id, w)| delta(id, &[*w]))
        .collect();
    flanders.aggregate(&batch).unwrap();
    flanders.aggregate(&batch).unwrap();
    let kept = flanders.diagnostics.iter().filter(|d| d.kept).count();
    assert_eq!(kept, 3);
}

#[test]
fn the_highest_draws_are_held_below_one() {
    // the state before the one whose upper 31 bits are all set
    let inverse = {
        let mut x = 6_364_136_223_846_793_005u64;
        for _ in 0..6 {
            x = x.wrapping_mul(2u64.wrapping_sub(6_364_136_223_846_793_005u64.wrapping_mul(x)));
        }
        x
    };
    let before = u64::MAX
        .wrapping_sub(1_442_695_040_888_963_407)
        .wrapping_mul(inverse);
    let mut lcg = Lcg { state: before };
    assert_eq!(f(lcg.next()).to_bits(), 0x3f7f_ffff);
    assert_eq!(lcg.state, u64::MAX);

    let before = 0x8000_00c8_0000_0000u64
        .wrapping_sub(1_442_695_040_888_963_407)
        .wrapping_mul(inverse);
    let mut lcg = Lcg { state: before };
    assert_eq!(f(lcg.next()), 2f32.powi(-23));
}

#[test]
fn a_round_of_clipping_moves_at_most_the_radius() {
    for radius in [0.5f32, 1e-3, 1e20] {
        let mut clipping = CenteredClippingAggregator::new(b(radius));
        clipping.aggregate(&crowd(3, &[1.0, -2.0, 0.5])).unwrap();
        let before = floats(&clipping.reference().unwrap());
        let batch = [
            delta("a", &[f32::MAX, 1.0, 0.0]),
            delta("b", &[1e30, -3.0, 7.0]),
            delta("c", &[1.5, 0.25, f32::MIN]),
        ];
        let after = floats(&clipping.aggregate(&batch).unwrap());
        let moved: f64 = before
            .iter()
            .zip(&after)
            .map(|(x, y)| (f64::from(*y) - f64::from(*x)).powi(2))
            .sum::<f64>()
            .sqrt();
        assert!(moved <= f64::from(radius) * (1.0 + 1e-3), "{radius}: {moved}");
    }
}

#[test]
fn a_round_of_trust_moves_at_most_the_reference() {
    let reference = [0.3f32, -0.4, 1.2];
    let mut fltrust = FlTrustAggregator::new();
    fltrust.set_reference(TrustedReference {
        global_weights: binary(&[0.0, 0.0, 0.0]),
        reference_weights: binary(&reference),
    });
    let batch = [
        delta("far", &[1e30, -1e30, 1e30]),
        delta("near", &[1e-20, -1e-20, 2e-20]),
        delta("away", &[-1.0, 1.0, -1.0]),
    ];
    let out = floats(&fltrust.aggregate(&batch).unwrap());
    let length = |v: &[f32]| v.iter().map(|x| f64::from(*x).powi(2)).sum::<f64>().sqrt();
    assert!(length(&out) <= length(&reference) * (1.0 + 1e-6));
    assert!(length(&out) > 0.5);
}

#[test]
fn clipping_brings_an_update_to_the_clip_norm() {
    let privacy = GaussianClippingPrivacy {
        clip_norm: b(2.0),
        noise_multiplier: b(1.0),
    };
    let length = |v: &[Binary32]| {
        v.iter().map(|x| f64::from(f(*x)).powi(2)).sum::<f64>().sqrt()
    };
    let mut long = binary(&[3.0, -4.0, 12.0]);
    privacy.clip(&mut long);
    assert!((length(&long) - 2.0).abs() < 1e-5);
    let mut short = binary(&[0.3, -0.4, 1.2]);
    privacy.clip(&mut short);
    assert_eq!(floats(&short), vec![0.3, -0.4, 1.2]);
    let mut huge = binary(&[f32::MAX, f32::MIN]);
    privacy.clip(&mut huge);
    assert!(floats(&huge).iter().all(|x| *x == 0.0));
}

#[test]
fn a_mean_of_what_is_not_finite_is_left_alone() {
    let mean = |v: &[f32]| f(mean_of(&binary(v)));
    assert!(mean(&[]).is_nan());
    assert_eq!(mean(&[f32::INFINITY, 1.0]), f32::INFINITY);
    assert_eq!(mean(&[f32::MAX, f32::MAX]), f32::MAX);
}

#[test]
fn draws_stay_below_one() {
    let mut low = 1.0f32;
    let mut high = -1.0f32;
    for seed in 0..40 {
        let mut lcg = Lcg::new(seed);
        for _ in 0..500 {
            let x = f(lcg.next());
            low = low.min(x);
            high = high.max(x);
        }
    }
    assert!((-1.0..-0.99).contains(&low), "got {low}");
    assert!(0.99 < high && high < 1.0, "got {high}");
}

#[test]
fn the_second_moment_keeps_its_floor_and_adagrads_never_falls() {
    for variant in [FedOptVariant::Adagrad, FedOptVariant::Adam, FedOptVariant::Yogi] {
        let mut optimizer = FedOptAggregator::new(variant);
        let tau = FedOptParams::for_variant(variant).tau;
        let floor = f(tau.mul(tau));
        let mut last = 0.0f32;
        for target in [0.0f32, 5.0, -3.0, 0.0, 0.0, 100.0, 0.0] {
            optimizer.aggregate(&crowd(3, &[target])).unwrap();
            let second = f(optimizer.moments().unwrap().1[0]);
            assert!(second >= floor, "{variant:?}: {second} below {floor}");
            if variant == FedOptVariant::Adagrad {
                assert!(second >= last);
            }
            last = second;
        }
    }
}

#[test]
fn an_opposing_update_changes_nothing() {
    let with = |batch: &[ClientDelta]| {
        let mut fltrust = FlTrustAggregator::new();
        fltrust.set_reference(TrustedReference {
            global_weights: binary(&[0.0, 0.0]),
            reference_weights: binary(&[1.0, 2.0]),
        });
        floats(&fltrust.aggregate(batch).unwrap())
    };
    let honest = vec![delta("a", &[1.0, 1.0]), delta("b", &[0.5, 3.0])];
    let mut joined = honest.clone();
    joined.insert(1, delta("enemy", &[-4.0, -1.0]));
    joined.push(delta("idle", &[0.0, 0.0]));
    assert_eq!(with(&honest), with(&joined));
    assert_eq!(with(&[delta("enemy", &[-4.0, -1.0])]), vec![0.0, 0.0]);
}

#[test]
fn history_weights_are_fractions() {
    let ln = |x: Binary32| b(f(x).ln());
    let histories = vec![
        binary(&[1.0, 0.0, 3.0]),
        binary(&[1.0, 0.1, 3.1]),
        binary(&[-5.0, 2.0, 0.0]),
        binary(&[0.0, 0.0, 0.0]),
        binary(&[1e30, 1e30, -1e30]),
    ];
    for weight in floats(&foolsgold_weights(&ln, &histories)) {
        assert!((0.0..=1.0).contains(&weight), "got {weight}");
    }
}

#[test]
fn clipping_stays_finite_from_the_edge_of_the_range() {
    let mut clipping = CenteredClippingAggregator::new(b(f32::MAX));
    clipping.aggregate(&crowd(1, &[f32::MAX, f32::MIN])).unwrap();
    for _ in 0..5 {
        let mut batch = crowd(9, &[f32::MAX, f32::MIN]);
        batch.extend(crowd(4, &[f32::MIN, f32::MAX]));
        let model = clipping.aggregate(&batch).unwrap();
        assert!(floats(&model).iter().all(|w| w.is_finite()));
    }
}

#[test]
fn sums_and_products_commute_and_keep_the_order() {
    let pool: Vec<f32> = vec![
        0.0, -0.0, 1.0, -1.5, 3.7e-39, 2.9e20, -8.1e-12, f32::MAX, f32::MIN, 0.1, 16777217.0,
    ];
    for &x in &pool {
        for &y in &pool {
            assert_eq!(b(x).add(b(y)).to_bits(), b(y).add(b(x)).to_bits());
            assert_eq!(b(x).mul(b(y)).to_bits(), b(y).mul(b(x)).to_bits());
            for &z in &pool {
                if x <= y {
                    assert!(f(b(x).add(b(z))) <= f(b(y).add(b(z))));
                }
            }
        }
        assert_eq!(f(b(x).sub(b(x))), 0.0);
        assert_eq!(b(x).mul(Binary32::one()).to_bits(), x.to_bits());
        assert_eq!(b(x).div(Binary32::one()).to_bits(), x.to_bits());
        if x != 0.0 {
            assert_eq!(b(x).div(b(x)), Binary32::one());
        }
        assert_eq!(b(x).to_binary64().to_binary32().to_bits(), x.to_bits());
    }
    assert_eq!(
        Binary64::from_u64(7).to_binary32(),
        Binary32::from_u64(7)
    );
}
