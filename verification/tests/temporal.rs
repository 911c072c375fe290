use conflux::aggregator::Aggregator;
use conflux::delta::ClientDelta;
use conflux::error::AggregatorError;
use conflux::float::binary32::Binary32;
use conflux::temporal::clipping::CenteredClippingAggregator;
use conflux::temporal::foolsgold::{foolsgold_weights, FoolsGoldAggregator};

fn b(x: f32) -> Binary32 {
    Binary32::from_bits(x.to_bits())
}

fn floats(values: &[Binary32]) -> Vec<f32> {
    values.iter().map(|x| f32::from_bits(x.to_bits())).collect()
}

fn ln(x: Binary32) -> Binary32 {
    b(f32::from_bits(x.to_bits()).ln())
}

fn weights_of(histories: &[Vec<f32>]) -> Vec<f32> {
    let histories: Vec<Vec<Binary32>> = histories
        .iter()
        .map(|h| h.iter().map(|x| b(*x)).collect())
        .collect();
    floats(&foolsgold_weights(&ln, &histories))
}

fn client_delta(client_id: &str, weights: &[f32]) -> ClientDelta {
    ClientDelta {
        client_id: client_id.to_string(),
        round: 1,
        weights: weights.iter().flat_map(|w| w.to_le_bytes()).collect(),
        num_samples: 1,
        local_loss: None,
    }
}

trait Run {
    fn run(&mut self, updates: &[ClientDelta]) -> Result<Vec<f32>, AggregatorError>;
}

impl<A: Aggregator> Run for A {
    fn run(&mut self, updates: &[ClientDelta]) -> Result<Vec<f32>, AggregatorError> {
        self.aggregate(updates).map(|model| floats(&model))
    }
}

#[test]
fn two_orthogonal_histories_get_equal_weight() {
    let weights = weights_of(&[vec![1.0, 0.0], vec![0.0, 1.0]]);

    assert!((weights[0] - weights[1]).abs() < 1e-6, "got {weights:?}");
    assert!(weights[0] > 0.0, "got {weights:?}");
}

#[test]
fn identical_histories_collapse_to_zero_weight() {
    let weights = weights_of(&[vec![5.0, 5.0], vec![5.0, 5.0]]);

    assert_eq!(weights, vec![0.0, 0.0]);
}

#[test]
fn a_pair_colluding_among_mutually_orthogonal_honest_clients_is_down_weighted() {
    let weights = weights_of(&[
        vec![1.0, 0.0, 0.0],
        vec![0.0, 1.0, 0.0],
        vec![0.0, 0.0, 1.0],
        vec![5.0, 5.0, 5.0],
        vec![5.0, 5.0, 5.0],
    ]);

    for &w in &weights[..3] {
        assert!(
            (w - 1.0).abs() < 1e-3,
            "expected honest clients at weight 1.0: {weights:?}"
        );
    }
    for &w in &weights[3..] {
        assert!(w < 1e-3, "expected colluders at weight 0.0: {weights:?}");
    }
}

#[test]
fn single_client_returns_it_unchanged() {
    let mut aggregator = FoolsGoldAggregator::new(ln);
    let updates = vec![client_delta("only", &[3.0, -1.0])];

    let result = aggregator.run(&updates).unwrap();

    assert_eq!(result, vec![3.0, -1.0]);
}

#[test]
fn temporal_empty_batch_errors() {
    let mut aggregator = FoolsGoldAggregator::new(ln);

    let err = aggregator.run(&[]).unwrap_err();

    assert!(matches!(err, AggregatorError::EmptyBatch));
}

#[test]
fn detects_and_down_weights_a_colluding_pair_across_rounds() {
    let mut aggregator = FoolsGoldAggregator::new(ln);
    let round = || {
        vec![
            client_delta("honest-1", &[1.0, 0.0, 0.0]),
            client_delta("honest-2", &[0.0, 1.0, 0.0]),
            client_delta("honest-3", &[0.0, 0.0, 1.0]),
            client_delta("sybil-1", &[5.0, 5.0, 5.0]),
            client_delta("sybil-2", &[5.0, 5.0, 5.0]),
        ]
    };

    aggregator.run(&round()).unwrap();
    let result = aggregator.run(&round()).unwrap();

    assert!(
        result.iter().all(|&x| (x - 0.2).abs() < 0.02),
        "got {result:?}, expected close to [0.2, 0.2, 0.2]"
    );
}

#[test]
fn dissimilar_honest_clients_all_contribute() {
    let mut aggregator = FoolsGoldAggregator::new(ln);
    let updates = vec![
        client_delta("a", &[1.0, 0.0]),
        client_delta("b", &[0.0, 1.0]),
        client_delta("c", &[-1.0, -1.0]),
    ];

    let result = aggregator.run(&updates).unwrap();

    assert!(
        result[0].abs() < 0.5 && result[1].abs() < 0.5,
        "got {result:?}"
    );
}

#[test]
fn centered_clipping_bounds_each_clients_pull_to_exactly_the_clip_radius() {
    let mut agg = CenteredClippingAggregator::new(b(1.0));
    let out = agg
        .run(&[
            client_delta("a", &[0.0, 0.0]),
            client_delta("b", &[2.0, 0.0]),
            client_delta("c", &[10.0, 0.0]),
        ])
        .unwrap();

    assert!((out[0] - 11.0 / 3.0).abs() < 1e-5, "got {out:?}");
    assert!(out[1].abs() < 1e-6, "got {out:?}");

    let pull_of_c = 1.0 / 3.0;
    assert!(
        (4.0 - out[0] - pull_of_c).abs() < 1e-5,
        "c's net pull should be exactly tau/n, got {out:?}"
    );
}

#[test]
fn centered_clipping_centers_the_next_round_on_the_last_output_not_the_batch_mean() {
    let mut agg = CenteredClippingAggregator::new(b(1.0));
    let batch = [
        client_delta("a", &[0.0, 0.0]),
        client_delta("b", &[2.0, 0.0]),
        client_delta("c", &[10.0, 0.0]),
    ];

    let round_1 = agg.run(&batch).unwrap();
    assert!((round_1[0] - 11.0 / 3.0).abs() < 1e-5);

    let round_2 = agg.run(&batch).unwrap();
    assert!((round_2[0] - 10.0 / 3.0).abs() < 1e-5, "got {round_2:?}");
    assert!(
        (round_2[0] - round_1[0]).abs() > 1e-3,
        "round 2 repeated round 1 — the reference is not persisting"
    );
    assert_eq!(agg.reference().map(|v| floats(&v)), Some(round_2.clone()));
}

#[test]
fn centered_clipping_degenerates_to_the_plain_mean_when_the_radius_never_binds() {
    let mut agg = CenteredClippingAggregator::new(b(1_000.0));
    let out = agg
        .run(&[
            client_delta("a", &[0.0, 0.0]),
            client_delta("b", &[2.0, 0.0]),
            client_delta("c", &[10.0, 0.0]),
        ])
        .unwrap();

    assert!((out[0] - 4.0).abs() < 1e-5, "got {out:?}");
}

#[test]
fn centered_clipping_walks_away_from_an_outlier_over_successive_rounds() {
    let mut agg = CenteredClippingAggregator::new(b(1.0));
    let batch = [
        client_delta("honest-1", &[0.0]),
        client_delta("honest-2", &[0.0]),
        client_delta("attacker", &[1000.0]),
    ];

    let mut previous = f32::INFINITY;
    for round in 0..5 {
        let out = agg.run(&batch).unwrap()[0];
        assert!(
            out < previous,
            "round {round} moved toward the attacker: {out} !< {previous}"
        );
        previous = out;
    }
    assert!(
        (1000.0 / 3.0 - 5.0 / 3.0 - previous).abs() < 1e-3,
        "expected five bounded steps down from the seeded mean, got {previous}"
    );
}

#[test]
fn centered_clipping_returns_a_lone_clients_update_unchanged_on_a_fresh_aggregator() {
    let mut agg = CenteredClippingAggregator::new(b(0.5));
    let out = agg.run(&[client_delta("solo", &[5.0, 7.0])]).unwrap();

    assert_eq!(out, vec![5.0, 7.0]);
}

#[test]
fn centered_clipping_clips_a_lone_client_once_a_reference_exists() {
    let mut agg = CenteredClippingAggregator::new(b(1.0));
    agg.run(&[client_delta("solo", &[0.0])]).unwrap();

    let out = agg.run(&[client_delta("solo", &[50.0])]).unwrap();
    assert!((out[0] - 1.0).abs() < 1e-6, "got {out:?}");
}

#[test]
fn centered_clipping_rejects_an_empty_batch() {
    let mut agg = CenteredClippingAggregator::new(b(1.0));
    assert!(matches!(
        agg.run(&[]),
        Err(AggregatorError::EmptyBatch)
    ));
}
