use conflux::aggregator::Aggregator;
use conflux::averaging::FedAvg;
use conflux::delta::ClientDelta;
use conflux::error::AggregatorError;
use conflux::float::binary32::Binary32;
use conflux::trusted::fltrust::{FlTrustAggregator, TrustedReference};
use conflux::trusted::zeno::{CandidateScores, ZenoAggregator};
use conflux::weights::encode_weights;

fn b(x: f32) -> Binary32 {
    Binary32::from_bits(x.to_bits())
}

fn floats(values: &[Binary32]) -> Vec<f32> {
    values.iter().map(|x| f32::from_bits(x.to_bits())).collect()
}

fn binary(values: &[f32]) -> Vec<Binary32> {
    values.iter().map(|x| b(*x)).collect()
}

fn delta(client_id: &str, weights: &[f32]) -> ClientDelta {
    ClientDelta {
        client_id: client_id.to_string(),
        round: 1,
        weights: encode_weights(&binary(weights)),
        num_samples: 10,
        local_loss: None,
    }
}

fn reference() -> TrustedReference {
    TrustedReference {
        global_weights: binary(&[0.0, 0.0, 0.0]),
        reference_weights: binary(&[1.0, 1.0, 1.0]),
    }
}

fn scores(global: &[f32], pairs: &[(&str, f32)]) -> CandidateScores {
    CandidateScores {
        global_weights: binary(global),
        scores: pairs.iter().map(|(c, s)| (c.to_string(), b(*s))).collect(),
    }
}

trait Run {
    fn run(&mut self, updates: &[ClientDelta]) -> Result<Vec<f32>, AggregatorError>;
}

impl<A: Aggregator> Run for A {
    fn run(&mut self, updates: &[ClientDelta]) -> Result<Vec<f32>, AggregatorError> {
        self.aggregate(updates).map(|model| floats(&model))
    }
}

#[test]
fn without_a_reference_it_refuses_rather_than_becoming_fedavg() {
    let mut aggregator = FlTrustAggregator::new();
    let err = aggregator
        .run(&[delta("a", &[1.0, 1.0, 1.0])])
        .expect_err("must refuse without a reference");
    assert!(matches!(err, AggregatorError::MissingTrustedReference));
}

#[test]
fn a_client_opposing_the_reference_contributes_nothing() {
    let mut aggregator = FlTrustAggregator::new();
    aggregator.set_reference(reference());

    let out = aggregator
        .run(&[
            delta("honest", &[1.0, 1.0, 1.0]),
            delta("opposed", &[-1.0, -1.0, -1.0]),
        ])
        .unwrap();

    assert!(
        out.iter().all(|w| (w - 1.0).abs() < 1e-5),
        "got {out:?}, expected ~[1, 1, 1]"
    );
}

#[test]
fn magnitude_does_not_buy_influence() {
    let mut aggregator = FlTrustAggregator::new();
    aggregator.set_reference(reference());

    let out = aggregator
        .run(&[
            delta("honest", &[1.0, 1.0, 1.0]),
            delta("loud", &[1000.0, 1000.0, 1000.0]),
        ])
        .unwrap();

    assert!(
        out.iter().all(|w| (w - 1.0).abs() < 1e-4),
        "got {out:?}; a 1000x update must not drag the aggregate"
    );
}

#[test]
fn a_colluding_majority_does_not_win() {
    let mut aggregator = FlTrustAggregator::new();
    aggregator.set_reference(reference());

    let out = aggregator
        .run(&[
            delta("honest", &[1.0, 1.1, 0.9]),
            delta("sybil-1", &[-5.0, -5.0, -5.0]),
            delta("sybil-2", &[-5.1, -4.9, -5.0]),
            delta("sybil-3", &[-4.9, -5.1, -5.0]),
        ])
        .unwrap();

    assert!(
        out.iter().all(|w| *w > 0.0),
        "got {out:?}; the aggregate must follow the reference, not the majority"
    );
}

#[test]
fn every_client_scored_out_returns_the_global_model_unchanged() {
    let mut aggregator = FlTrustAggregator::new();
    aggregator.set_reference(TrustedReference {
        global_weights: binary(&[7.0, 8.0, 9.0]),
        reference_weights: binary(&[8.0, 9.0, 10.0]),
    });

    let out = aggregator
        .run(&[delta("a", &[6.0, 7.0, 8.0]), delta("b", &[5.0, 6.0, 7.0])])
        .unwrap();

    assert_eq!(
        out,
        vec![7.0, 8.0, 9.0],
        "nothing trustworthy means no movement, not an invented aggregate"
    );
}

#[test]
fn a_reference_of_the_wrong_dimension_is_rejected() {
    let mut aggregator = FlTrustAggregator::new();
    aggregator.set_reference(TrustedReference {
        global_weights: binary(&[0.0, 0.0]),
        reference_weights: binary(&[1.0, 1.0]),
    });

    let err = aggregator
        .run(&[delta("a", &[1.0, 1.0, 1.0])])
        .expect_err("a 2-weight reference cannot score a 3-weight batch");
    assert!(matches!(
        err,
        AggregatorError::TrustedReferenceDimension { .. }
    ));
}

#[test]
fn trusted_extreme_but_finite_updates_do_not_produce_a_non_finite_aggregate() {
    let mut aggregator = FlTrustAggregator::new();
    aggregator.set_reference(reference());

    let out = aggregator
        .run(&[
            delta("honest", &[1.0, 1.0, 1.0]),
            delta("huge", &[f32::MAX, f32::MAX, f32::MAX]),
        ])
        .unwrap();

    assert!(out.iter().all(|w| w.is_finite()), "got {out:?}");
}

#[test]
fn zeno_drops_the_b_lowest_scored_and_averages_the_rest() {
    let mut agg = ZenoAggregator::new(b(0.25), b(0.0));
    agg.set_candidate_scores(scores(
        &[0.0],
        &[("a", 1.0), ("b", 0.9), ("c", 0.8), ("d", -5.0)],
    ));
    let out = agg
        .run(&[
            delta("a", &[1.0]),
            delta("b", &[2.0]),
            delta("c", &[3.0]),
            delta("d", &[100.0]),
        ])
        .unwrap();
    assert!((out[0] - 2.0).abs() < 1e-6, "got {out:?}");
}

#[test]
fn the_rho_penalty_drops_the_large_update_at_equal_sidecar_score() {
    let mut agg = ZenoAggregator::new(b(0.5), b(0.02));
    agg.set_candidate_scores(scores(&[0.0, 0.0], &[("a", 1.0), ("b", 1.0)]));
    let out = agg
        .run(&[delta("a", &[1.0, 0.0]), delta("b", &[10.0, 0.0])])
        .unwrap();
    assert_eq!(out, vec![1.0, 0.0]);
}

#[test]
fn missing_scores_error_rather_than_silently_averaging() {
    let mut agg = ZenoAggregator::new(b(0.25), b(0.0005));
    let err = agg.run(&[delta("a", &[1.0])]).unwrap_err();
    assert!(matches!(err, AggregatorError::MissingCandidateScores));
}

#[test]
fn scores_are_consumed_once_and_never_reused_across_rounds() {
    let mut agg = ZenoAggregator::new(b(0.0), b(0.0));
    agg.set_candidate_scores(scores(&[0.0], &[("a", 1.0)]));
    agg.run(&[delta("a", &[1.0])]).unwrap();

    let err = agg.run(&[delta("a", &[1.0])]).unwrap_err();
    assert!(matches!(err, AggregatorError::MissingCandidateScores));
}

#[test]
fn an_unscored_client_is_an_error_not_a_default() {
    let mut agg = ZenoAggregator::new(b(0.0), b(0.0));
    agg.set_candidate_scores(scores(&[0.0], &[("a", 1.0)]));
    let err = agg
        .run(&[delta("a", &[1.0]), delta("b", &[2.0])])
        .unwrap_err();
    match err {
        AggregatorError::UnscoredClient { client_id } => assert_eq!(client_id, "b"),
        other => panic!("expected UnscoredClient, got {}", other.message()),
    }
}

#[test]
fn a_dimension_mismatch_between_scores_and_batch_errors() {
    let mut agg = ZenoAggregator::new(b(0.0), b(0.0));
    agg.set_candidate_scores(scores(&[0.0, 0.0, 0.0], &[("a", 1.0)]));
    let err = agg.run(&[delta("a", &[1.0])]).unwrap_err();
    assert!(matches!(
        err,
        AggregatorError::CandidateScoresDimension {
            expected: 1,
            got: 3
        }
    ));
}

#[test]
fn a_non_finite_score_ranks_last_and_is_dropped_first() {
    let mut agg = ZenoAggregator::new(b(0.34), b(0.0));
    agg.set_candidate_scores(scores(&[0.0], &[("a", f32::NAN), ("b", 0.1), ("c", 0.2)]));
    let out = agg
        .run(&[delta("a", &[100.0]), delta("b", &[1.0]), delta("c", &[3.0])])
        .unwrap();
    assert!((out[0] - 2.0).abs() < 1e-6, "got {out:?}");
}

#[test]
fn zero_byzantine_fraction_is_the_plain_unweighted_mean() {
    let mut agg = ZenoAggregator::new(b(0.0), b(0.0));
    agg.set_candidate_scores(scores(&[0.0], &[("a", -1.0), ("b", 1.0)]));
    let out = agg
        .run(&[delta("a", &[0.0]), delta("b", &[4.0])])
        .unwrap();
    assert!((out[0] - 2.0).abs() < 1e-6, "got {out:?}");
}

#[test]
fn trusted_empty_batch_errors() {
    let mut agg = ZenoAggregator::new(b(0.25), b(0.0005));
    assert!(matches!(
        agg.run(&[]),
        Err(AggregatorError::EmptyBatch)
    ));
}

#[test]
fn capability_flags_are_disjoint_across_the_trusted_family() {
    let zeno = ZenoAggregator::new(b(0.25), b(0.0005));
    assert!(zeno.requires_candidate_scores());
    assert!(!zeno.requires_trusted_reference());

    let fltrust = FlTrustAggregator::new();
    assert!(fltrust.requires_trusted_reference());
    assert!(!fltrust.requires_candidate_scores());

    assert!(!FedAvg::default().requires_candidate_scores());
}
