use conflux::aggregator::Aggregator;
use conflux::averaging::FedAvg;
use conflux::delta::ClientDelta;
use conflux::error::AggregatorError;
use conflux::flanders::filter::FlandersAggregator;
use conflux::flanders::forecast::forecast_coordinates;
use conflux::flanders::solve::solve;
use conflux::float::binary32::Binary32;
use conflux::float::binary64::Binary64;
use conflux::weights::encode_weights;

fn b(x: f32) -> Binary32 {
    Binary32::from_bits(x.to_bits())
}

fn floats(values: &[Binary32]) -> Vec<f32> {
    values.iter().map(|x| f32::from_bits(x.to_bits())).collect()
}

fn double(x: Binary64) -> f64 {
    f64::from_bits(x.to_bits())
}

fn matrix(rows: &[Vec<f64>]) -> Vec<Vec<Binary64>> {
    rows.iter()
        .map(|row| row.iter().map(|x| Binary64::from_bits(x.to_bits())).collect())
        .collect()
}

fn doubles(rows: &[Vec<Binary64>]) -> Vec<Vec<f64>> {
    rows.iter()
        .map(|row| row.iter().map(|x| double(*x)).collect())
        .collect()
}

fn delta(client_id: &str, weights: &[f32]) -> ClientDelta {
    let weights: Vec<Binary32> = weights.iter().map(|x| b(*x)).collect();
    ClientDelta {
        client_id: client_id.to_string(),
        round: 1,
        weights: encode_weights(&weights),
        num_samples: 10,
        local_loss: None,
    }
}

fn fedavg() -> FedAvg {
    FedAvg::default()
}

trait Run {
    fn run(&mut self, updates: &[ClientDelta]) -> Result<Vec<f32>, AggregatorError>;
}

impl<A: Aggregator> Run for A {
    fn run(&mut self, updates: &[ClientDelta]) -> Result<Vec<f32>, AggregatorError> {
        self.aggregate(updates).map(|model| floats(&model))
    }
}

#[test]
fn solve_recovers_a_known_system() {
    let m = vec![vec![2.0, 1.0], vec![1.0, 3.0]];
    let rhs = vec![vec![5.0], vec![10.0]];
    let x = doubles(&solve(matrix(&m), matrix(&rhs)).expect("non-singular"));
    assert!((x[0][0] - 1.0).abs() < 1e-9, "{x:?}");
    assert!((x[1][0] - 3.0).abs() < 1e-9, "{x:?}");
}

#[test]
fn solve_refuses_a_singular_system_rather_than_guessing() {
    let m = vec![vec![1.0, 2.0], vec![2.0, 4.0]];
    let rhs = vec![vec![1.0], vec![2.0]];
    assert!(solve(matrix(&m), matrix(&rhs)).is_none());
}

#[test]
fn the_forecast_stays_within_its_bound_on_a_large_model() {
    let dim = 50_890;
    let mut f = FlandersAggregator::new(fedavg());
    assert_eq!(f.tuning.max_forecast_dim, 500);
    f.tuning.max_forecast_dim = 60;

    let mut base: Vec<f32> = (0..dim).map(|i| (i % 17) as f32 * 0.01).collect();
    for round in 0..4 {
        for (i, w) in base.iter_mut().enumerate() {
            *w += ((round + i) % 7) as f32 * 1e-4;
        }
        let mut hostile = base.clone();
        hostile[dim / 2] += 50.0;

        let out = f
            .run(&[
                delta("a", &base),
                delta("b", &base),
                delta("hostile", &hostile),
            ])
            .unwrap();
        assert_eq!(out.len(), dim);
        assert!(out.iter().all(|w| w.is_finite()), "round {round}");
    }

    assert!(f.last_diagnostics().iter().any(|d| d.forecast_available));
}

#[test]
fn coordinate_sampling_spreads_across_the_whole_vector() {
    let coords = forecast_coordinates(50_890, 500);
    assert_eq!(coords.len(), 500);
    assert_eq!(coords[0], 0);
    assert!(
        *coords.last().unwrap() > 50_000,
        "sampling must reach the end of the vector, got {:?}",
        coords.last()
    );
    assert!(
        coords.windows(2).all(|w| w[0] < w[1]),
        "strictly increasing"
    );

    assert_eq!(forecast_coordinates(3, 500), vec![0, 1, 2]);
}

#[test]
fn round_one_keeps_everyone() {
    let mut f = FlandersAggregator::new(fedavg());
    let out = f
        .run(&[delta("a", &[1.0, 1.0]), delta("b", &[9.0, 9.0])])
        .unwrap();
    assert!(f.last_diagnostics().iter().all(|d| d.kept));
    assert!(out[0] > 4.0, "nothing was filtered yet: {out:?}");
}

#[test]
fn a_client_that_suddenly_deviates_from_its_own_history_is_filtered() {
    let mut f = FlandersAggregator::new(fedavg());
    f.tuning.byzantine_fraction = b(0.25);

    for round in 0..6 {
        let drift = round as f32 * 0.01;
        f.run(&[
            delta("a", &[1.0 + drift, 1.0 + drift]),
            delta("b", &[1.1 + drift, 0.9 + drift]),
            delta("c", &[0.9 + drift, 1.1 + drift]),
            delta("d", &[1.0 + drift, 1.0 + drift]),
        ])
        .unwrap();
    }

    f.run(&[
        delta("a", &[1.06, 1.06]),
        delta("b", &[1.16, 0.96]),
        delta("c", &[0.96, 1.16]),
        delta("d", &[80.0, 80.0]),
    ])
    .unwrap();

    let diagnostics = f.last_diagnostics();
    let d = diagnostics.iter().find(|x| x.client_id == "d").unwrap();
    assert!(
        !d.kept,
        "the deviating client should be filtered: {diagnostics:?}"
    );
    assert!(
        double(d.anomaly_score) > 1.0,
        "and should score high: {}",
        double(d.anomaly_score)
    );
}

#[test]
fn a_perfectly_stable_colluder_is_the_most_forecastable_client_in_the_batch() {
    let mut f = FlandersAggregator::new(fedavg());
    f.tuning.byzantine_fraction = b(0.4);

    for round in 0..8 {
        let jitter = (round as f32 * 0.37).sin() * 0.2;
        f.run(&[
            delta("honest-1", &[1.0 + jitter, 1.0 - jitter]),
            delta("honest-2", &[1.1 - jitter, 0.9 + jitter]),
            delta("honest-3", &[0.9 + jitter, 1.1 - jitter]),
            delta("sybil-1", &[5.0, 5.0]),
            delta("sybil-2", &[5.0, 5.0]),
        ])
        .unwrap();
    }

    let diagnostics = f.last_diagnostics();
    let score = |id: &str| {
        double(
            diagnostics
                .iter()
                .find(|d| d.client_id == id)
                .unwrap()
                .anomaly_score,
        )
    };
    let kept = |id: &str| diagnostics.iter().find(|d| d.client_id == id).unwrap().kept;

    assert!(
        score("sybil-1") < score("honest-1"),
        "the stable colluder should look *less* anomalous than an honest client: \
         sybil={} honest={}",
        score("sybil-1"),
        score("honest-1")
    );
    assert!(
        kept("sybil-1") && kept("sybil-2"),
        "and both colluders survive the filter: {diagnostics:?}"
    );
}

#[test]
fn diagnostics_record_whether_a_forecast_was_available() {
    let mut f = FlandersAggregator::new(fedavg());
    f.run(&[delta("a", &[1.0]), delta("b", &[1.0])])
        .unwrap();
    assert!(f.last_diagnostics().iter().all(|d| !d.forecast_available));

    for _ in 0..4 {
        f.run(&[delta("a", &[1.0]), delta("b", &[1.0])])
            .unwrap();
    }
    assert!(
        f.last_diagnostics().iter().any(|d| d.forecast_available),
        "a forecast should be available once history exists"
    );
}

#[test]
fn the_filter_never_hands_the_base_an_empty_batch() {
    let mut f = FlandersAggregator::new(fedavg());
    f.tuning.byzantine_fraction = b(1.0);

    f.run(&[delta("a", &[1.0]), delta("b", &[2.0])])
        .unwrap();
    let out = f
        .run(&[delta("a", &[1.0]), delta("b", &[2.0])])
        .unwrap();

    assert!(out[0].is_finite());
    assert_eq!(
        f.last_diagnostics().iter().filter(|d| d.kept).count(),
        1,
        "excluding 100% must still leave one client, not zero"
    );
}

#[test]
fn flanders_extreme_but_finite_updates_do_not_produce_a_non_finite_aggregate() {
    let mut f = FlandersAggregator::new(fedavg());
    for w in [1.0, f32::MAX, -f32::MAX, 1.0, f32::MAX, 1.0] {
        match f.run(&[
            delta("a", &[1.0, 1.0]),
            delta("b", &[1.1, 0.9]),
            delta("hostile", &[w, w]),
        ]) {
            Ok(out) => assert!(out.iter().all(|x| x.is_finite()), "got {out:?}"),
            Err(_) => {}
        }
    }
}

#[test]
fn a_rejected_batch_does_not_enter_the_history() {
    let mut f = FlandersAggregator::new(fedavg());
    f.run(&[delta("a", &[1.0]), delta("b", &[1.0])])
        .unwrap();

    let before = f.last_diagnostics().len();
    let _ = f.run(&[delta("a", &[f32::NAN]), delta("b", &[1.0])]);
    assert_eq!(f.last_diagnostics().len(), before);
}
