use conflux::aggregator::Aggregator;
use conflux::averaging::FedAvg;
use conflux::delta::ClientDelta;
use conflux::error::AggregatorError;
use conflux::float::binary32::Binary32;
use conflux::robust::coordinate::{
    CoordinateWiseAggregator, MedianOfMeansStatistic, MedianStatistic, TrimmedMeanStatistic,
};
use conflux::robust::divide::DivideAndConquerFilter;
use conflux::robust::faba::FabaFilter;
use conflux::robust::filter::{FilteredAggregator, UpdateFilter};
use conflux::robust::geometric::{
    GeometricMedianStatistic, RobustVectorStatistic, VectorRobustAggregator,
};
use conflux::robust::krum::{BulyanFilter, DistanceMatrix, KrumFilter, MultiKrumFilter};

fn b(x: f32) -> Binary32 {
    Binary32::from_bits(x.to_bits())
}

fn floats(values: &[Binary32]) -> Vec<f32> {
    values.iter().map(|x| f32::from_bits(x.to_bits())).collect()
}

fn f(x: Binary32) -> f32 {
    f32::from_bits(x.to_bits())
}

fn client_delta(client_id: &str, weights: &[f32]) -> ClientDelta {
    ClientDelta {
        client_id: client_id.to_string(),
        round: 1,
        weights: weights.iter().flat_map(|w| w.to_le_bytes()).collect(),
        num_samples: 1,
        local_loss: None,
    }
}

trait Run {
    fn run(&mut self, updates: &[ClientDelta]) -> Result<Vec<f32>, AggregatorError>;
}

impl<A: Aggregator> Run for A {
    fn run(&mut self, updates: &[ClientDelta]) -> Result<Vec<f32>, AggregatorError> {
        self.aggregate(updates).map(|model| floats(&model))
    }
}

#[test]
fn distance_to_self_is_zero() {
    let updates = vec![client_delta("a", &[1.0, 2.0])];
    let matrix = DistanceMatrix::from_updates(&updates).unwrap();

    assert_eq!(f(matrix.distance(0, 0)), 0.0);
}

#[test]
fn matrix_is_symmetric() {
    let updates = vec![
        client_delta("a", &[0.0, 0.0]),
        client_delta("b", &[3.0, 4.0]),
    ];
    let matrix = DistanceMatrix::from_updates(&updates).unwrap();

    assert_eq!(f(matrix.distance(0, 1)), f(matrix.distance(1, 0)));
}

#[test]
fn known_two_point_distance_matches_hand_computed_l2() {
    let updates = vec![
        client_delta("a", &[0.0, 0.0]),
        client_delta("b", &[3.0, 4.0]),
    ];
    let matrix = DistanceMatrix::from_updates(&updates).unwrap();

    assert!((f(matrix.distance(0, 1)) - 5.0).abs() < 1e-5);
}

#[test]
fn krum_excludes_an_obvious_outlier() {
    let mut aggregator = FilteredAggregator::new(
        KrumFilter {
            byzantine_fraction: b(0.2),
        },
        FedAvg::default(),
    );
    let updates = vec![
        client_delta("honest-1", &[1.0, 1.0]),
        client_delta("honest-2", &[1.1, 0.9]),
        client_delta("honest-3", &[0.9, 1.1]),
        client_delta("attacker", &[1000.0, -1000.0]),
    ];

    let result = aggregator.run(&updates).unwrap();

    assert!(
        result[0] < 2.0 && result[1] < 2.0,
        "result should stay near the honest cluster: {result:?}"
    );
}

#[test]
fn krum_on_a_single_update_returns_it_unchanged() {
    let mut aggregator = FilteredAggregator::new(
        KrumFilter {
            byzantine_fraction: b(0.2),
        },
        FedAvg::default(),
    );
    let updates = vec![client_delta("only", &[1.0, -2.0, 3.0])];

    let result = aggregator.run(&updates).unwrap();

    assert_eq!(result, vec![1.0, -2.0, 3.0]);
}

#[test]
fn krum_empty_batch_errors() {
    let mut aggregator = FilteredAggregator::new(
        KrumFilter {
            byzantine_fraction: b(0.2),
        },
        FedAvg::default(),
    );

    let err = match aggregator.run(&[]) {
        Err(e) => e,
        Ok(_) => panic!("expected EmptyBatch"),
    };
    assert!(matches!(err, AggregatorError::EmptyBatch));
}

#[test]
fn multi_krum_with_zero_byzantine_fraction_keeps_everyone() {
    let mut aggregator = FilteredAggregator::new(
        MultiKrumFilter {
            byzantine_fraction: b(0.0),
        },
        FedAvg::default(),
    );
    let updates = vec![
        client_delta("a", &[1.0, 2.0]),
        client_delta("b", &[3.0, 4.0]),
    ];

    let result = aggregator.run(&updates).unwrap();

    assert_eq!(result, vec![2.0, 3.0]);
}

#[test]
fn multi_krum_excludes_a_minority_of_outliers() {
    let filter = MultiKrumFilter {
        byzantine_fraction: b(0.3),
    };
    let updates = vec![
        client_delta("honest-1", &[1.0, 1.0]),
        client_delta("honest-2", &[1.1, 0.9]),
        client_delta("honest-3", &[0.9, 1.1]),
        client_delta("honest-4", &[1.0, 1.0]),
        client_delta("attacker", &[1000.0, -1000.0]),
    ];

    let selection = filter.filter(&updates).unwrap();

    assert!(
        !selection.selected_indices.contains(&4),
        "the attacker (index 4) should have been filtered out: {selection:?}"
    );
}

#[test]
fn trimmed_mean_matches_hand_trimmed_result() {
    let mut aggregator = CoordinateWiseAggregator::new(TrimmedMeanStatistic {
        byzantine_fraction: b(0.2),
    });
    let updates = vec![
        client_delta("a", &[1.0]),
        client_delta("b", &[2.0]),
        client_delta("c", &[3.0]),
        client_delta("d", &[4.0]),
        client_delta("e", &[100.0]),
    ];

    let result = aggregator.run(&updates).unwrap();

    assert!((result[0] - 3.0).abs() < 1e-5, "got {result:?}");
}

#[test]
fn trimmed_mean_resists_a_poisoned_minority() {
    let mut aggregator = CoordinateWiseAggregator::new(TrimmedMeanStatistic {
        byzantine_fraction: b(0.25),
    });
    let updates = vec![
        client_delta("honest-1", &[1.0]),
        client_delta("honest-2", &[1.1]),
        client_delta("honest-3", &[0.9]),
        client_delta("honest-4", &[1.0]),
        client_delta("attacker", &[10_000.0]),
    ];

    let result = aggregator.run(&updates).unwrap();

    assert!(
        result[0] < 2.0,
        "result pulled toward the attacker: {result:?}"
    );
}

#[test]
fn median_matches_known_middle_value_odd_count() {
    let mut aggregator = CoordinateWiseAggregator::new(MedianStatistic);
    let updates = vec![
        client_delta("a", &[5.0]),
        client_delta("b", &[1.0]),
        client_delta("c", &[3.0]),
    ];

    let result = aggregator.run(&updates).unwrap();

    assert_eq!(result, vec![3.0]);
}

#[test]
fn median_averages_the_two_middle_values_even_count() {
    let mut aggregator = CoordinateWiseAggregator::new(MedianStatistic);
    let updates = vec![
        client_delta("a", &[1.0]),
        client_delta("b", &[2.0]),
        client_delta("c", &[3.0]),
        client_delta("d", &[4.0]),
    ];

    let result = aggregator.run(&updates).unwrap();

    assert_eq!(result, vec![2.5]);
}

#[test]
fn median_resists_a_poisoned_minority() {
    let mut aggregator = CoordinateWiseAggregator::new(MedianStatistic);
    let updates = vec![
        client_delta("honest-1", &[1.0]),
        client_delta("honest-2", &[1.1]),
        client_delta("honest-3", &[0.9]),
        client_delta("attacker-1", &[10_000.0]),
        client_delta("attacker-2", &[-10_000.0]),
    ];

    let result = aggregator.run(&updates).unwrap();

    assert!((result[0] - 1.0).abs() < 0.2, "got {result:?}");
}

#[test]
fn trimmed_mean_on_a_single_update_returns_it_unchanged() {
    let mut aggregator = CoordinateWiseAggregator::new(TrimmedMeanStatistic {
        byzantine_fraction: b(0.2),
    });
    let updates = vec![client_delta("only", &[7.0])];

    let result = aggregator.run(&updates).unwrap();

    assert_eq!(result, vec![7.0]);
}

#[test]
fn median_on_two_updates_averages_them() {
    let mut aggregator = CoordinateWiseAggregator::new(MedianStatistic);
    let updates = vec![client_delta("a", &[2.0]), client_delta("b", &[4.0])];

    let result = aggregator.run(&updates).unwrap();

    assert_eq!(result, vec![3.0]);
}

#[test]
fn filtered_aggregator_composes_with_a_non_fedavg_combiner() {
    let mut aggregator = FilteredAggregator::new(
        MultiKrumFilter {
            byzantine_fraction: b(0.2),
        },
        CoordinateWiseAggregator::new(MedianStatistic),
    );
    let updates = vec![
        client_delta("honest-1", &[1.0, 1.0]),
        client_delta("honest-2", &[1.1, 0.9]),
        client_delta("honest-3", &[0.9, 1.1]),
        client_delta("honest-4", &[1.0, 1.0]),
        client_delta("attacker", &[1000.0, -1000.0]),
    ];

    let result = aggregator.run(&updates).unwrap();

    assert!(
        result[0] < 2.0 && result[1] < 2.0,
        "the attacker should have been filtered out before the median combiner even ran: {result:?}"
    );
}

#[test]
fn faba_excludes_an_obvious_outlier() {
    let mut aggregator = FilteredAggregator::new(
        FabaFilter {
            byzantine_fraction: b(0.3),
        },
        FedAvg::default(),
    );
    let updates = vec![
        client_delta("honest-1", &[1.0, 1.0]),
        client_delta("honest-2", &[1.1, 0.9]),
        client_delta("honest-3", &[0.9, 1.1]),
        client_delta("attacker", &[1000.0, -1000.0]),
    ];

    let result = aggregator.run(&updates).unwrap();

    assert!(
        result[0] < 2.0 && result[1] < 2.0,
        "result should stay near the honest cluster: {result:?}"
    );
}

#[test]
fn faba_on_a_single_update_returns_it_unchanged() {
    let mut aggregator = FilteredAggregator::new(
        FabaFilter {
            byzantine_fraction: b(0.2),
        },
        FedAvg::default(),
    );
    let updates = vec![client_delta("only", &[4.0, -1.0])];

    let result = aggregator.run(&updates).unwrap();

    assert_eq!(result, vec![4.0, -1.0]);
}

#[test]
fn faba_resists_a_poisoned_minority() {
    let mut aggregator = FilteredAggregator::new(
        FabaFilter {
            byzantine_fraction: b(0.2),
        },
        FedAvg::default(),
    );
    let updates = vec![
        client_delta("honest-1", &[1.0]),
        client_delta("honest-2", &[1.1]),
        client_delta("honest-3", &[0.9]),
        client_delta("honest-4", &[1.0]),
        client_delta("attacker", &[10_000.0]),
    ];

    let result = aggregator.run(&updates).unwrap();

    assert!(
        result[0] < 2.0,
        "result pulled toward the attacker: {result:?}"
    );
}

#[test]
fn bulyan_excludes_an_obvious_outlier() {
    let filter = BulyanFilter {
        byzantine_fraction: b(0.15),
    };
    let updates = vec![
        client_delta("honest-1", &[1.0]),
        client_delta("honest-2", &[1.05]),
        client_delta("honest-3", &[0.95]),
        client_delta("honest-4", &[1.0]),
        client_delta("honest-5", &[1.02]),
        client_delta("honest-6", &[0.98]),
        client_delta("honest-7", &[1.0]),
        client_delta("honest-8", &[1.01]),
        client_delta("attacker", &[10_000.0]),
    ];

    let selection = filter.filter(&updates).unwrap();

    assert!(
        !selection.selected_indices.contains(&8),
        "the attacker (index 8) should have been excluded by iterated Krum selection: {selection:?}"
    );
}

#[test]
fn bulyan_resists_a_poisoned_minority_end_to_end() {
    let mut aggregator = FilteredAggregator::new(
        BulyanFilter {
            byzantine_fraction: b(0.15),
        },
        CoordinateWiseAggregator::new(TrimmedMeanStatistic {
            byzantine_fraction: b(0.15),
        }),
    );
    let updates = vec![
        client_delta("honest-1", &[1.0]),
        client_delta("honest-2", &[1.05]),
        client_delta("honest-3", &[0.95]),
        client_delta("honest-4", &[1.0]),
        client_delta("honest-5", &[1.02]),
        client_delta("honest-6", &[0.98]),
        client_delta("honest-7", &[1.0]),
        client_delta("honest-8", &[1.01]),
        client_delta("attacker", &[10_000.0]),
    ];

    let result = aggregator.run(&updates).unwrap();

    assert!(
        (result[0] - 1.0).abs() < 0.2,
        "result pulled toward the attacker: {result:?}"
    );
}

#[test]
fn bulyan_on_a_single_update_returns_it_unchanged() {
    let mut aggregator = FilteredAggregator::new(
        BulyanFilter {
            byzantine_fraction: b(0.15),
        },
        CoordinateWiseAggregator::new(TrimmedMeanStatistic {
            byzantine_fraction: b(0.15),
        }),
    );
    let updates = vec![client_delta("only", &[3.0, -2.0])];

    let result = aggregator.run(&updates).unwrap();

    assert_eq!(result, vec![3.0, -2.0]);
}

#[test]
fn geometric_median_of_three_colinear_points_matches_their_median() {
    let mut aggregator = VectorRobustAggregator::new(GeometricMedianStatistic::default());
    let updates = vec![
        client_delta("a", &[0.0]),
        client_delta("b", &[1.0]),
        client_delta("c", &[3.0]),
    ];

    let result = aggregator.run(&updates).unwrap();

    assert!((result[0] - 1.0).abs() < 1e-3, "got {result:?}");
}

#[test]
fn geometric_median_resists_a_poisoned_minority() {
    let mut aggregator = VectorRobustAggregator::new(GeometricMedianStatistic::default());
    let updates = vec![
        client_delta("honest-1", &[1.0]),
        client_delta("honest-2", &[1.1]),
        client_delta("honest-3", &[0.9]),
        client_delta("honest-4", &[1.0]),
        client_delta("attacker", &[10_000.0]),
    ];

    let result = aggregator.run(&updates).unwrap();

    assert!(
        result[0] < 2.0,
        "result pulled toward the attacker: {result:?}"
    );
}

#[test]
fn geometric_median_weights_by_num_samples() {
    let statistic = GeometricMedianStatistic { iterations: 50 };
    let weights = vec![b(1.0), b(10.0)];
    let updates = vec![vec![b(0.0)], vec![b(10.0)]];

    let result = floats(&statistic.combine(&weights, &updates));

    assert!((result[0] - 10.0).abs() < 0.1, "got {result:?}");
}

#[test]
fn geometric_median_on_a_single_update_returns_it_unchanged() {
    let mut aggregator = VectorRobustAggregator::new(GeometricMedianStatistic::default());
    let updates = vec![client_delta("only", &[5.0, -3.0])];

    let result = aggregator.run(&updates).unwrap();

    assert_eq!(result, vec![5.0, -3.0]);
}

#[test]
fn median_of_means_matches_hand_computed_result() {
    let mut aggregator = CoordinateWiseAggregator::new(MedianOfMeansStatistic { group_size: 2 });
    let updates = vec![
        client_delta("a", &[1.0]),
        client_delta("b", &[3.0]),
        client_delta("c", &[100.0]),
        client_delta("d", &[102.0]),
        client_delta("e", &[5.0]),
        client_delta("f", &[7.0]),
    ];

    let result = aggregator.run(&updates).unwrap();

    assert!((result[0] - 6.0).abs() < 1e-5, "got {result:?}");
}

#[test]
fn median_of_means_resists_a_single_poisoned_group() {
    let mut aggregator = CoordinateWiseAggregator::new(MedianOfMeansStatistic { group_size: 2 });
    let updates = vec![
        client_delta("honest-1", &[1.0]),
        client_delta("honest-2", &[1.0]),
        client_delta("honest-3", &[1.0]),
        client_delta("honest-4", &[1.0]),
        client_delta("honest-5", &[1.0]),
        client_delta("attacker", &[10_000.0]),
    ];

    let result = aggregator.run(&updates).unwrap();

    assert!((result[0] - 1.0).abs() < 1e-3, "got {result:?}");
}

#[test]
fn median_of_means_on_a_single_update_returns_it_unchanged() {
    let mut aggregator = CoordinateWiseAggregator::new(MedianOfMeansStatistic { group_size: 2 });
    let updates = vec![client_delta("only", &[9.0])];

    let result = aggregator.run(&updates).unwrap();

    assert_eq!(result, vec![9.0]);
}

#[test]
fn divide_and_conquer_excludes_the_dominant_variance_outlier() {
    let filter = DivideAndConquerFilter {
        byzantine_fraction: b(0.2),
        ..Default::default()
    };
    let updates = vec![
        client_delta("honest-1", &[-0.1, 5.0]),
        client_delta("honest-2", &[0.0, 5.0]),
        client_delta("honest-3", &[0.1, 5.0]),
        client_delta("honest-4", &[0.0, 5.0]),
        client_delta("attacker", &[1000.0, 5.0]),
    ];

    let selection = filter.filter(&updates).unwrap();

    assert!(
        !selection.selected_indices.contains(&4),
        "the attacker (index 4) should have been excluded: {selection:?}"
    );
}

#[test]
fn divide_and_conquer_resists_a_poisoned_minority_end_to_end() {
    let mut aggregator = FilteredAggregator::new(
        DivideAndConquerFilter {
            byzantine_fraction: b(0.2),
            ..Default::default()
        },
        FedAvg::default(),
    );
    let updates = vec![
        client_delta("honest-1", &[-0.1, 5.0]),
        client_delta("honest-2", &[0.0, 5.0]),
        client_delta("honest-3", &[0.1, 5.0]),
        client_delta("honest-4", &[0.0, 5.0]),
        client_delta("attacker", &[1000.0, 5.0]),
    ];

    let result = aggregator.run(&updates).unwrap();

    assert!(
        result[0].abs() < 1.0 && (result[1] - 5.0).abs() < 1e-3,
        "result pulled toward the attacker: {result:?}"
    );
}

#[test]
fn divide_and_conquer_with_zero_byzantine_fraction_keeps_everyone() {
    let filter = DivideAndConquerFilter {
        byzantine_fraction: b(0.2),
        ..Default::default()
    };
    let updates = vec![
        client_delta("a", &[1.0]),
        client_delta("b", &[2.0]),
        client_delta("c", &[3.0]),
    ];

    let selection = filter.filter(&updates).unwrap();

    assert_eq!(selection.selected_indices, vec![0, 1, 2]);
}
