use conflux::aggregator::Aggregator;
use conflux::averaging::FedAvg;
use conflux::catalog::{
    build_aggregator, AggregatorParams, CatalogAggregator, Functions, Supplied,
};
use conflux::delta::ClientDelta;
use conflux::error::AggregatorError;
use conflux::float::binary32::Binary32;
use conflux::float::binary64::Binary64;
use conflux::temporal::clipping::CenteredClippingAggregator;
use conflux::weights::encode_weights;

fn b(x: f32) -> Binary32 {
    Binary32::from_bits(x.to_bits())
}

fn floats(values: &[Binary32]) -> Vec<f32> {
    values.iter().map(|x| f32::from_bits(x.to_bits())).collect()
}

fn ln(x: Binary32) -> Binary32 {
    b(f32::from_bits(x.to_bits()).ln())
}

fn pow(x: Binary64, y: Binary64) -> Binary64 {
    let power = f64::from_bits(x.to_bits()).powf(f64::from_bits(y.to_bits()));
    Binary64::from_bits(power.to_bits())
}

type Built = CatalogAggregator<
    fn(Binary32) -> Binary32,
    fn(Binary64, Binary64) -> Binary64,
    FedAvg,
    FedAvg,
>;

fn build(name: &str) -> Built {
    let functions: Functions<fn(Binary32) -> Binary32, fn(Binary64, Binary64) -> Binary64> =
        Functions { ln, pow };
    let supplied = Supplied {
        fednova: FedAvg::default(),
        scaffold: |_rate: Binary32, _clients: u32| FedAvg::default(),
    };
    build_aggregator(name, AggregatorParams::default(), functions, supplied)
        .unwrap_or_else(|e| panic!("{name}: {e:?}"))
}

fn delta(client_id: &str, weights: &[f32], num_samples: u64) -> ClientDelta {
    let weights: Vec<Binary32> = weights.iter().map(|x| b(*x)).collect();
    ClientDelta {
        client_id: client_id.to_string(),
        round: 1,
        weights: encode_weights(&weights),
        num_samples,
        local_loss: None,
    }
}

trait Run {
    fn run(&mut self, updates: &[ClientDelta]) -> Result<Vec<f32>, AggregatorError>;
}

impl<A: Aggregator> Run for A {
    fn run(&mut self, updates: &[ClientDelta]) -> Result<Vec<f32>, AggregatorError> {
        self.aggregate(updates).map(|model| floats(&model))
    }
}

fn stateful_aggregators() -> Vec<(String, Built)> {
    STATEFUL_CATALOG
        .iter()
        .map(|&name| (name.to_string(), build(name)))
        .collect()
}

fn recovering_aggregators() -> Vec<(String, Built)> {
    stateful_aggregators()
        .into_iter()
        .filter(|(name, _)| !BOUNDED_STEP.contains(&name.as_str()))
        .collect()
}

fn assert_round_survives(
    name: &str,
    aggregator: &mut Built,
    updates: &[ClientDelta],
    scenario: &str,
) -> Option<Vec<f32>> {
    match aggregator.run(updates) {
        Err(_) => None,
        Ok(output) => {
            assert!(
                output.iter().all(|w| w.is_finite()),
                "{name} returned a non-finite aggregate on {scenario} ({output:?})"
            );
            Some(output)
        }
    }
}

const STATEFUL_CATALOG: &[&str] = &[
    "foolsgold",
    "centered_clipping",
    "flanders",
    "fedavgm",
    "fedadagrad",
    "fedadam",
    "fedyogi",
    "qfedavg",
    "fednova",
    "scaffold",
];

const BOUNDED_STEP: &[&str] = &[
    "centered_clipping",
    "fedavgm",
    "fedadagrad",
    "fedadam",
    "fedyogi",
];

fn clean_batch() -> Vec<ClientDelta> {
    vec![
        delta("honest-1", &[1.0, 1.0, 1.0], 10),
        delta("honest-2", &[1.1, 0.9, 1.0], 10),
        delta("honest-3", &[0.9, 1.1, 1.0], 10),
    ]
}

#[test]
fn accepted_but_extreme_weights_do_not_poison_the_next_round() {
    for (name, mut aggregator) in recovering_aggregators() {
        assert_round_survives(
            &name,
            &mut aggregator,
            &[
                delta("honest-1", &[1.0, 1.0, 1.0], 10),
                delta("honest-2", &[1.1, 0.9, 1.0], 10),
                delta("extreme", &[f32::MAX, f32::MAX, f32::MAX], 10),
            ],
            "round 1: an accepted f32::MAX update",
        );

        let out = assert_round_survives(
            &name,
            &mut aggregator,
            &clean_batch(),
            "round 2: a clean batch after an f32::MAX round",
        );

        if let Some(out) = out {
            assert!(
                out.iter().all(|w| w.abs() < 1e6),
                "{name} let round 1's extreme update wreck a clean round 2: got {out:?}, \
                 every client submitted ~[1.0, 1.0, 1.0]"
            );
        }
    }
}

#[test]
fn a_rejected_batch_does_not_corrupt_state_for_later_rounds() {
    for (name, mut aggregator) in stateful_aggregators() {
        assert_round_survives(&name, &mut aggregator, &clean_batch(), "round 1: clean");

        let mut poisoned = clean_batch();
        poisoned.push(delta("hostile", &[f32::NAN, f32::NAN, f32::NAN], 10));
        let rejected = aggregator.run(&poisoned);
        assert!(
            rejected.is_err(),
            "{name} accepted a NaN batch — adversarial_input.rs should have caught this"
        );

        let out = assert_round_survives(
            &name,
            &mut aggregator,
            &clean_batch(),
            "round 3: clean, after a rejected round 2",
        );

        if let Some(out) = out {
            assert!(
                out.iter().all(|w| w.abs() < 1e6),
                "{name} carried damage out of a *rejected* batch into round 3: got {out:?}"
            );
        }
    }
}

#[test]
fn a_long_run_of_extreme_rounds_does_not_diverge() {
    for (name, mut aggregator) in recovering_aggregators() {
        for round in 0..25 {
            let magnitude = if round % 2 == 0 { 1e30 } else { -1e30 };
            assert_round_survives(
                &name,
                &mut aggregator,
                &[
                    delta("honest-1", &[1.0, 1.0, 1.0], 10),
                    delta("honest-2", &[1.1, 0.9, 1.0], 10),
                    delta("oscillator", &[magnitude, magnitude, magnitude], 10),
                ],
                &format!("round {round} of an alternating ±1e30 run"),
            );
        }

        let out = assert_round_survives(
            &name,
            &mut aggregator,
            &clean_batch(),
            "a clean batch after 25 extreme rounds",
        );

        if let Some(out) = out {
            assert!(
                out.iter().all(|w| w.abs() < 1e6),
                "{name} diverged over 25 extreme rounds and never recovered: got {out:?}"
            );
        }
    }
}

#[test]
fn a_client_that_changes_dimension_between_rounds_does_not_panic() {
    for (name, mut aggregator) in stateful_aggregators() {
        assert_round_survives(&name, &mut aggregator, &clean_batch(), "round 1: 3 weights");

        assert_round_survives(
            &name,
            &mut aggregator,
            &[
                delta("honest-1", &[1.0, 1.0, 1.0, 1.0, 1.0], 10),
                delta("honest-2", &[1.1, 0.9, 1.0, 1.0, 1.0], 10),
                delta("honest-3", &[0.9, 1.1, 1.0, 1.0, 1.0], 10),
            ],
            "round 2: the same clients, now 5 weights",
        );

        assert_round_survives(
            &name,
            &mut aggregator,
            &clean_batch(),
            "round 3: back to 3 weights",
        );
    }
}

#[test]
fn a_completely_new_client_set_each_round_does_not_grow_state_without_bound() {
    for (name, mut aggregator) in stateful_aggregators() {
        for round in 0..200 {
            assert_round_survives(
                &name,
                &mut aggregator,
                &[
                    delta(&format!("r{round}-a"), &[1.0, 1.0, 1.0], 10),
                    delta(&format!("r{round}-b"), &[1.1, 0.9, 1.0], 10),
                    delta(&format!("r{round}-c"), &[0.9, 1.1, 1.0], 10),
                ],
                &format!("round {round} with an entirely new cohort"),
            );
        }

        let out = assert_round_survives(
            &name,
            &mut aggregator,
            &clean_batch(),
            "a clean batch after 200 all-new cohorts",
        );

        if let Some(out) = out {
            assert!(
                out.iter().all(|w| w.abs() < 1e6),
                "{name} misbehaved after 200 rounds of unseen clients: got {out:?}"
            );
        }
    }
}

#[test]
fn centered_clippings_stored_reference_stays_finite() {
    let mut aggregator = CenteredClippingAggregator::new(b(1.0));

    for round in 0..25 {
        let magnitude = if round % 2 == 0 { f32::MAX } else { f32::MIN };
        let _ = aggregator.run(&[
            delta("honest", &[1.0, 1.0, 1.0], 10),
            delta("extreme", &[magnitude, magnitude, magnitude], 10),
        ]);

        let reference = floats(
            &aggregator
                .reference()
                .expect("a reference exists after the first round"),
        );
        assert!(
            reference.iter().all(|w| w.is_finite()),
            "the stored reference went non-finite at round {round}: {reference:?} — every \
             later round clips against this"
        );
    }
}

#[test]
fn centered_clipping_movement_stays_bounded_by_the_clip_radius() {
    let tau = 1.0f32;
    let mut aggregator = CenteredClippingAggregator::new(b(tau));

    let seed = aggregator
        .run(&clean_batch())
        .expect("a clean batch seeds the reference");

    let mut previous = seed;
    for round in 0..30 {
        let magnitude = if round % 2 == 0 { 1e30 } else { -1e30 };
        let next = aggregator
            .run(&[
                delta("honest-1", &[1.0, 1.0, 1.0], 10),
                delta("honest-2", &[1.1, 0.9, 1.0], 10),
                delta("attacker", &[magnitude, magnitude, magnitude], 10),
            ])
            .expect("finite weights are accepted");

        assert!(
            next.iter().all(|w| w.is_finite()),
            "round {round}: reference went non-finite: {next:?}"
        );

        let moved = next
            .iter()
            .zip(&previous)
            .map(|(a, b)| {
                let d = *a as f64 - *b as f64;
                d * d
            })
            .sum::<f64>()
            .sqrt();

        assert!(
            moved <= tau as f64 * 1.01,
            "round {round}: the reference moved {moved} in one round, but τ = {tau} is \
             supposed to bound exactly this — an attacker regained unbounded pull"
        );

        previous = next;
    }
}
