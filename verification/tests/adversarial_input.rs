use conflux::aggregator::Aggregator;
use conflux::averaging::FedAvg;
use conflux::catalog::{
    build_aggregator, AggregatorParams, CatalogAggregator, Functions, Supplied,
};
use conflux::delta::ClientDelta;
use conflux::error::AggregatorError;
use conflux::float::binary32::Binary32;
use conflux::float::binary64::Binary64;
use conflux::weights::encode_weights;

fn b(x: f32) -> Binary32 {
    Binary32::from_bits(x.to_bits())
}

fn floats(values: &[Binary32]) -> Vec<f32> {
    values.iter().map(|x| f32::from_bits(x.to_bits())).collect()
}

fn ln(x: Binary32) -> Binary32 {
    b(f32::from_bits(x.to_bits()).ln())
}

fn pow(x: Binary64, y: Binary64) -> Binary64 {
    let power = f64::from_bits(x.to_bits()).powf(f64::from_bits(y.to_bits()));
    Binary64::from_bits(power.to_bits())
}

type Built = CatalogAggregator<
    fn(Binary32) -> Binary32,
    fn(Binary64, Binary64) -> Binary64,
    FedAvg,
    FedAvg,
>;

fn build(name: &str) -> Built {
    let functions: Functions<fn(Binary32) -> Binary32, fn(Binary64, Binary64) -> Binary64> =
        Functions { ln, pow };
    let supplied = Supplied {
        fednova: FedAvg::default(),
        scaffold: |_rate: Binary32, _clients: u32| FedAvg::default(),
    };
    build_aggregator(name, AggregatorParams::default(), functions, supplied)
        .unwrap_or_else(|e| panic!("{name}: {e:?}"))
}

fn delta(client_id: &str, weights: &[f32], num_samples: u64) -> ClientDelta {
    let weights: Vec<Binary32> = weights.iter().map(|x| b(*x)).collect();
    ClientDelta {
        client_id: client_id.to_string(),
        round: 1,
        weights: encode_weights(&weights),
        num_samples,
        local_loss: None,
    }
}

trait Run {
    fn run(&mut self, updates: &[ClientDelta]) -> Result<Vec<f32>, AggregatorError>;
}

impl<A: Aggregator> Run for A {
    fn run(&mut self, updates: &[ClientDelta]) -> Result<Vec<f32>, AggregatorError> {
        self.aggregate(updates).map(|model| floats(&model))
    }
}

fn assert_survives(name: &str, updates: &[ClientDelta], scenario: &str) {
    if let Ok(output) = build(name).run(updates) {
        assert!(
            output.iter().all(|w| w.is_finite()),
            "{name} returned a non-finite aggregate on {scenario} ({output:?})"
        );
    }
}

const ALL_AGGREGATORS: &[&str] = &[
    "fedavg",
    "krum",
    "multi_krum",
    "trimmed_mean",
    "median",
    "faba",
    "bulyan",
    "geometric_median",
    "median_of_means",
    "divide_and_conquer",
    "foolsgold",
    "centered_clipping",
];

fn batch_with(hostile: ClientDelta) -> Vec<ClientDelta> {
    vec![
        delta("honest-1", &[1.0, 1.0, 1.0], 10),
        delta("honest-2", &[1.1, 0.9, 1.0], 10),
        hostile,
    ]
}

#[test]
fn no_aggregator_panics_or_emits_nan_when_a_client_submits_nan() {
    for &name in ALL_AGGREGATORS {
        assert_survives(
            name,
            &batch_with(delta("hostile", &[f32::NAN, f32::NAN, f32::NAN], 10)),
            "NaN weights",
        );
    }
}

#[test]
fn no_aggregator_panics_or_emits_nan_when_a_client_submits_infinity() {
    for &name in ALL_AGGREGATORS {
        assert_survives(
            name,
            &batch_with(delta("hostile", &[f32::INFINITY; 3], 10)),
            "positive infinity",
        );
        assert_survives(
            name,
            &batch_with(delta("hostile", &[f32::NEG_INFINITY; 3], 10)),
            "negative infinity",
        );
    }
}

#[test]
fn a_single_nan_coordinate_is_caught_not_just_an_all_nan_vector() {
    for &name in ALL_AGGREGATORS {
        assert_survives(
            name,
            &batch_with(delta("hostile", &[1.0, f32::NAN, 1.0], 10)),
            "one NaN coordinate among finite ones",
        );
    }
}

#[test]
fn nan_is_reported_with_the_client_and_the_coordinate() {
    let mut aggregator = build("fedavg");
    let err = aggregator
        .run(&batch_with(delta("hostile", &[1.0, 1.0, f32::NAN], 10)))
        .expect_err("a NaN weight must be rejected");

    match err {
        AggregatorError::NonFiniteWeights { client_id, index } => {
            assert_eq!(client_id, "hostile");
            assert_eq!(index, 2);
        }
        other => panic!("expected NonFiniteWeights, got {other:?}"),
    }
}

#[test]
fn no_aggregator_is_captured_by_an_impossible_sample_count() {
    let hostile = delta("liar", &[99.0, 99.0, 99.0], u64::MAX);
    for &name in ALL_AGGREGATORS {
        let mut aggregator = build(name);
        match aggregator.run(&batch_with(hostile.clone())) {
            Err(_) => {}
            Ok(output) => {
                assert!(
                    output.iter().all(|w| w.is_finite()),
                    "{name} produced a non-finite aggregate"
                );
                assert!(
                    output[0] < 50.0,
                    "{name} let one client with an impossible sample count capture the \
                     aggregate: got {output:?}, honest consensus is ~[1.0, 1.0, 1.0]"
                );
            }
        }
    }
}

#[test]
fn an_impossible_sample_count_names_the_client_and_the_limit() {
    let mut aggregator = build("fedavg");
    let err = aggregator
        .run(&batch_with(delta("liar", &[99.0; 3], u64::MAX)))
        .expect_err("u64::MAX samples must be rejected");

    match err {
        AggregatorError::ImplausibleSampleCount {
            client_id,
            got,
            max,
        } => {
            assert_eq!(client_id, "liar");
            assert_eq!(got, u64::MAX);
            assert!(max < got);
        }
        other => panic!("expected ImplausibleSampleCount, got {other:?}"),
    }
}

#[test]
fn a_large_but_possible_sample_count_is_still_accepted() {
    let mut aggregator = build("fedavg");
    let out = aggregator
        .run(&batch_with(delta("big-but-real", &[2.0; 3], 10_000_000)))
        .expect("a plausible sample count must be accepted");
    assert!(out.iter().all(|w| w.is_finite()));
}

#[test]
fn zero_sample_counts_do_not_crash_any_aggregator() {
    for &name in ALL_AGGREGATORS {
        assert_survives(
            name,
            &batch_with(delta("empty-shard", &[1.0; 3], 0)),
            "num_samples = 0",
        );
        assert_survives(
            name,
            &[
                delta("a", &[1.0; 3], 0),
                delta("b", &[2.0; 3], 0),
                delta("c", &[3.0; 3], 0),
            ],
            "every client reporting zero samples",
        );
    }
}

#[test]
fn extreme_but_finite_magnitudes_do_not_produce_infinities() {
    for &name in ALL_AGGREGATORS {
        assert_survives(
            name,
            &batch_with(delta("huge", &[f32::MAX, f32::MAX, f32::MAX], 10)),
            "f32::MAX weights",
        );
        assert_survives(
            name,
            &batch_with(delta("tiny", &[f32::MIN_POSITIVE; 3], 10)),
            "denormal-adjacent weights",
        );
    }
}

#[test]
fn degenerate_batch_shapes_do_not_panic() {
    for &name in ALL_AGGREGATORS {
        let mut aggregator = build(name);

        match aggregator.run(&[]) {
            Ok(_) => panic!("{name} accepted an empty batch"),
            Err(AggregatorError::EmptyBatch) => {}
            Err(other) => panic!("{name} gave {other:?} for an empty batch, expected EmptyBatch"),
        }

        assert_survives(name, &[delta("solo", &[1.0, 2.0], 10)], "a single client");
        assert_survives(
            name,
            &[
                delta("a", &[1.0], 10),
                delta("b", &[2.0], 10),
                delta("c", &[3.0], 10),
            ],
            "dim = 1",
        );
    }
}

#[test]
fn mismatched_dimensions_are_rejected_by_name() {
    let mut aggregator = build("fedavg");
    let err = aggregator
        .run(&[delta("a", &[1.0, 2.0, 3.0], 10), delta("short", &[1.0], 10)])
        .expect_err("a dimension mismatch must be rejected");
    assert!(
        matches!(err, AggregatorError::MismatchedLength { .. }),
        "got {err:?}"
    );
}

#[test]
fn truncated_weight_bytes_are_rejected_not_silently_reinterpreted() {
    let mut aggregator = build("fedavg");
    let err = aggregator
        .run(&[ClientDelta {
            client_id: "truncated".to_string(),
            round: 1,
            weights: vec![0u8; 7],
            num_samples: 10,
            local_loss: None,
        }])
        .expect_err("7 bytes is not a valid f32 vector");
    assert!(
        matches!(err, AggregatorError::MalformedWeights { .. }),
        "got {err:?}"
    );
}
