use conflux::aggregator::Aggregator;
use conflux::averaging::FedAvg;
use conflux::delta::ClientDelta;
use conflux::error::AggregatorError;
use conflux::float::binary32::Binary32;

fn floats(values: &[Binary32]) -> Vec<f32> {
    values.iter().map(|x| f32::from_bits(x.to_bits())).collect()
}

fn client_delta(client_id: &str, weights: &[f32], num_samples: u64) -> ClientDelta {
    ClientDelta {
        client_id: client_id.to_string(),
        round: 1,
        weights: weights.iter().flat_map(|w| w.to_le_bytes()).collect(),
        num_samples,
        local_loss: None,
    }
}

#[test]
fn equal_sample_counts_average_to_the_elementwise_mean() {
    let mut fed_avg = FedAvg::default();
    let updates = vec![
        client_delta("a", &[1.0, 2.0], 10),
        client_delta("b", &[3.0, 4.0], 10),
    ];

    let result = floats(&fed_avg.aggregate(&updates).unwrap());

    assert_eq!(result, vec![2.0, 3.0]);
}

#[test]
fn larger_sample_count_pulls_the_result_toward_it() {
    let mut fed_avg = FedAvg::default();
    let updates = vec![
        client_delta("small", &[0.0], 1),
        client_delta("large", &[10.0], 99),
    ];

    let result = floats(&fed_avg.aggregate(&updates).unwrap());

    assert!(result[0] > 9.0);
}

#[test]
fn single_update_batch_is_unchanged() {
    let mut fed_avg = FedAvg::default();
    let updates = vec![client_delta("only", &[1.0, -2.0, 3.0], 5)];

    let result = floats(&fed_avg.aggregate(&updates).unwrap());

    assert_eq!(result, vec![1.0, -2.0, 3.0]);
}

#[test]
fn averaging_empty_batch_errors() {
    let mut fed_avg = FedAvg::default();

    let err = fed_avg.aggregate(&[]).unwrap_err();

    assert!(matches!(err, AggregatorError::EmptyBatch));
}

#[test]
fn mismatched_lengths_error() {
    let mut fed_avg = FedAvg::default();
    let updates = vec![
        client_delta("a", &[1.0, 2.0], 10),
        client_delta("b", &[3.0], 10),
    ];

    let err = fed_avg.aggregate(&updates).unwrap_err();

    assert!(matches!(err, AggregatorError::MismatchedLength { .. }));
}

#[test]
fn sample_counts_that_sum_to_zero_are_refused() {
    let mut fed_avg = FedAvg::default();
    let updates = vec![client_delta("a", &[1.0], 0), client_delta("b", &[2.0], 0)];

    let err = fed_avg.aggregate(&updates).unwrap_err();

    assert!(matches!(err, AggregatorError::ZeroWeightSum));
    assert_eq!(err.message(), "batch weights sum to zero — cannot normalize");
}

#[test]
fn a_weighted_mean_is_the_exact_single_precision_one() {
    let mut fed_avg = FedAvg::default();
    let updates = vec![
        client_delta("a", &[0.1, -7.0], 3),
        client_delta("b", &[0.7, 2.5], 5),
        client_delta("c", &[1.3, 1e-3], 7),
    ];

    let result = floats(&fed_avg.aggregate(&updates).unwrap());

    let total: f32 = 15.0;
    let shares: Vec<f32> = vec![3.0 / total, 5.0 / total, 7.0 / total];
    let rows: Vec<Vec<f32>> = vec![vec![0.1, -7.0], vec![0.7, 2.5], vec![1.3, 1e-3]];
    let mut expected: Vec<f32> = vec![0.0, 0.0];
    for (share, row) in shares.iter().zip(&rows) {
        for (e, w) in expected.iter_mut().zip(row) {
            *e += share * w;
        }
    }
    assert_eq!(result, expected);
}
