use conflux::aggregator::Aggregator;
use conflux::averaging::FedAvg;
use conflux::catalog::{build_aggregator, AggregatorParams, Functions, Supplied};
use conflux::delta::ClientDelta;
use conflux::error::AggregatorError;
use conflux::float::binary32::Binary32;
use conflux::float::binary64::Binary64;
use conflux::optimization::fedavgm::FedAvgMAggregator;
use conflux::optimization::fedopt::{FedOptAggregator, FedOptVariant};
use conflux::optimization::qfedavg::QFedAvgAggregator;
use conflux::weights::encode_weights;

fn b(x: f32) -> Binary32 {
    Binary32::from_bits(x.to_bits())
}

fn floats(values: &[Binary32]) -> Vec<f32> {
    values.iter().map(|x| f32::from_bits(x.to_bits())).collect()
}

fn ln(x: Binary32) -> Binary32 {
    b(f32::from_bits(x.to_bits()).ln())
}

fn pow(x: Binary64, y: Binary64) -> Binary64 {
    let power = f64::from_bits(x.to_bits()).powf(f64::from_bits(y.to_bits()));
    Binary64::from_bits(power.to_bits())
}

fn delta_n(client_id: &str, weights: &[f32], num_samples: u64) -> ClientDelta {
    let weights: Vec<Binary32> = weights.iter().map(|x| b(*x)).collect();
    ClientDelta {
        client_id: client_id.to_string(),
        round: 1,
        weights: encode_weights(&weights),
        num_samples,
        local_loss: None,
    }
}

fn delta(client_id: &str, weights: &[f32]) -> ClientDelta {
    delta_n(client_id, weights, 10)
}

fn delta_loss(client_id: &str, weights: &[f32], loss: f32) -> ClientDelta {
    ClientDelta {
        local_loss: Some(b(loss)),
        ..delta(client_id, weights)
    }
}

fn moments(agg: &FedOptAggregator<FedAvg>) -> (Vec<f32>, Vec<f32>) {
    let (first, second) = agg.moments().unwrap();
    (floats(&first), floats(&second))
}

trait Run {
    fn run(&mut self, updates: &[ClientDelta]) -> Result<Vec<f32>, AggregatorError>;
}

impl<A: Aggregator> Run for A {
    fn run(&mut self, updates: &[ClientDelta]) -> Result<Vec<f32>, AggregatorError> {
        self.aggregate(updates).map(|model| floats(&model))
    }
}

fn batch(weights: &[f32]) -> Vec<ClientDelta> {
    vec![
        delta("a", weights),
        delta("b", weights),
        delta("c", weights),
    ]
}

#[test]
fn fedavgm_accumulates_momentum_across_rounds() {
    let mut agg = FedAvgMAggregator::new();
    agg.run(&batch(&[0.0])).unwrap();

    let mut previous = 0.0f32;
    let mut last_step = 0.0f32;
    for round in 0..4 {
        let target = previous + 1.0;
        let out = agg.run(&batch(&[target])).unwrap();
        let step = out[0] - previous;
        assert!(
            step > last_step,
            "round {round}: momentum should compound, {step} !> {last_step}"
        );
        last_step = step;
        previous = out[0];
    }
}

#[test]
fn fedavgm_with_beta_zero_is_plain_fedavg() {
    let mut agg = FedAvgMAggregator::new();
    agg.beta = b(0.0);
    agg.run(&batch(&[0.0, 0.0])).unwrap();
    let out = agg.run(&batch(&[1.0, 2.0])).unwrap();
    assert!(
        (out[0] - 1.0).abs() < 1e-6 && (out[1] - 2.0).abs() < 1e-6,
        "got {out:?}, expected the plain aggregate"
    );
}

#[test]
fn fedavgm_weights_by_sample_count_unlike_fedopt() {
    let lopsided = vec![delta_n("small", &[0.0], 1), delta_n("large", &[10.0], 100)];

    let mut m = FedAvgMAggregator::new();
    let mut a = FedOptAggregator::new(FedOptVariant::Adam);
    let m1 = m.run(&lopsided).unwrap()[0];
    let a1 = a.run(&lopsided).unwrap()[0];

    assert!(
        m1 > a1,
        "sample-count weighting should favour the large client: \
         fedavgm={m1} fedadam={a1}"
    );
    assert!((m1 - 9.9).abs() < 0.2, "weighted mean ~9.9, got {m1}");
    assert!((a1 - 5.0).abs() < 0.2, "unweighted mean 5.0, got {a1}");
}

#[test]
fn fedavgm_survives_extreme_but_finite_updates() {
    let mut agg = FedAvgMAggregator::new();
    for w in [0.0, f32::MAX, -f32::MAX, 1.0] {
        match agg.run(&batch(&[w, w])) {
            Ok(out) => assert!(out.iter().all(|x| x.is_finite()), "got {out:?}"),
            Err(_) => {}
        }
    }
}

#[test]
fn qfedavg_with_q_zero_matches_fedavg() {
    let mut q0 = QFedAvgAggregator::with_params(b(0.0), b(1.0), pow);
    let mut plain = FedAvg::default();

    let round1 = vec![
        delta_loss("a", &[0.0, 0.0], 1.0),
        delta_loss("b", &[0.0, 0.0], 1.0),
    ];
    q0.run(&round1).unwrap();

    let round2 = vec![
        delta_loss("a", &[1.0, 2.0], 0.5),
        delta_loss("b", &[3.0, 4.0], 9.0),
    ];
    let got = q0.run(&round2).unwrap();
    let want = plain.run(&round2).unwrap();

    for (g, w) in got.iter().zip(&want) {
        assert!(
            (g - w).abs() < 1e-4,
            "q=0 must equal fedavg: {got:?} vs {want:?}"
        );
    }
}

#[test]
fn a_higher_loss_client_pulls_harder_when_q_is_positive() {
    let mut agg = QFedAvgAggregator::with_params(b(2.0), b(1.0), pow);
    agg.run(&[delta_loss("a", &[0.0], 1.0), delta_loss("b", &[0.0], 1.0)])
        .unwrap();

    let out = agg
        .run(&[
            delta_loss("well-served", &[-1.0], 0.1),
            delta_loss("badly-served", &[1.0], 5.0),
        ])
        .unwrap();

    assert!(
        out[0] > 0.0,
        "the high-loss client should dominate, got {out:?}"
    );
}

#[test]
fn larger_q_shifts_the_direction_further_toward_the_worst_served_client() {
    let epsilon = 1e-3;
    let mut previous = f32::NEG_INFINITY;
    for q in [0.0f32, 1.0, 2.0, 4.0] {
        let mut agg = QFedAvgAggregator::with_params(b(q), b(1.0), pow);
        agg.run(&[delta_loss("a", &[0.0], 1.0), delta_loss("b", &[0.0], 1.0)])
            .unwrap();
        let out = agg
            .run(&[
                delta_loss("well-served", &[-epsilon], 0.5),
                delta_loss("badly-served", &[epsilon], 4.0),
            ])
            .unwrap();
        let direction = out[0] / epsilon;
        assert!(
            direction > previous,
            "q={q}: direction should turn further toward the high-loss \
             client, {direction} !> {previous}"
        );
        previous = direction;
    }
    assert!(
        previous > 0.5,
        "at q = 4 the direction should be dominated by the high-loss \
         client, got {previous}"
    );
}

#[test]
fn the_step_magnitude_is_non_monotone_in_q() {
    let step = |q: f32| {
        let mut agg = QFedAvgAggregator::with_params(b(q), b(1.0), pow);
        agg.run(&[delta_loss("a", &[0.0], 1.0), delta_loss("b", &[0.0], 1.0)])
            .unwrap();
        agg.run(&[
            delta_loss("well-served", &[-1.0], 0.5),
            delta_loss("badly-served", &[1.0], 4.0),
        ])
        .unwrap()[0]
            .abs()
    };

    let (s1, s2, s4) = (step(1.0), step(2.0), step(4.0));
    assert!(
        s2 > s1,
        "the direction effect should win first: {s2} !> {s1}"
    );
    assert!(
        s4 < s2,
        "and the step-size penalty should win eventually: {s4} !< {s2}"
    );
}

#[test]
fn a_client_reporting_no_loss_is_neutral_not_zero() {
    let mut agg = QFedAvgAggregator::with_params(b(2.0), b(1.0), pow);
    agg.run(&[delta_loss("a", &[0.0], 1.0), delta_loss("b", &[0.0], 1.0)])
        .unwrap();

    let mut silent = delta_loss("silent", &[1.0], 0.0);
    silent.local_loss = None;
    let out = agg
        .run(&[silent, delta_loss("vocal", &[-1.0], 1.0)])
        .unwrap();

    assert!(
        out[0].abs() < 0.9,
        "a silent client must still count, got {out:?}"
    );
}

#[test]
fn a_batch_with_no_reported_losses_is_plain_fedavg() {
    let mut agg = QFedAvgAggregator::with_params(b(2.0), b(1.0), pow);
    agg.run(&batch(&[0.0, 0.0])).unwrap();
    let out = agg.run(&batch(&[1.0, 3.0])).unwrap();
    let want = FedAvg::default()
        .run(&batch(&[1.0, 3.0]))
        .unwrap();
    assert_eq!(out, want);
}

#[test]
fn qfedavg_survives_extreme_but_finite_updates() {
    let mut agg = QFedAvgAggregator::with_params(b(2.0), b(1.0), pow);
    for (w, loss) in [(0.0, 1.0), (f32::MAX, 1e30), (-f32::MAX, 0.0), (1.0, 1.0)] {
        match agg.run(&[
            delta_loss("a", &[w, w], loss),
            delta_loss("b", &[1.0, 1.0], 1.0),
        ]) {
            Ok(out) => assert!(out.iter().all(|x| x.is_finite()), "got {out:?}"),
            Err(_) => {}
        }
    }
}

#[test]
fn round_one_returns_the_plain_aggregate() {
    for variant in [
        FedOptVariant::Adagrad,
        FedOptVariant::Adam,
        FedOptVariant::Yogi,
    ] {
        let mut agg = FedOptAggregator::new(variant);
        let out = agg.run(&batch(&[1.0, 2.0, 3.0])).unwrap();
        assert_eq!(out, vec![1.0, 2.0, 3.0], "{variant:?}");
    }
}

#[test]
fn the_optimizer_moves_the_model_in_the_pseudo_gradient_direction() {
    let mut agg = FedOptAggregator::new(FedOptVariant::Adam);
    agg.run(&batch(&[0.0, 0.0, 0.0])).unwrap();
    let out = agg.run(&batch(&[1.0, 1.0, 1.0])).unwrap();

    assert!(
        out.iter().all(|w| *w > 0.0),
        "should move toward the aggregate, got {out:?}"
    );
}

#[test]
fn adagrads_effective_step_only_ever_shrinks() {
    let mut agg = FedOptAggregator::new(FedOptVariant::Adagrad);
    agg.run(&batch(&[0.0])).unwrap();

    let mut previous = 0.0f32;
    let mut last_step = f32::INFINITY;
    for round in 0..5 {
        let target = previous + 1.0;
        let out = agg.run(&batch(&[target])).unwrap();
        let step = out[0] - previous;
        assert!(
            step < last_step,
            "round {round}: step {step} did not shrink below {last_step}"
        );
        last_step = step;
        previous = out[0];
    }
}

#[test]
fn yogis_second_moment_decays_more_slowly_than_adams() {
    let shock = [1000.0f32];
    let normal = [1.0f32];

    let mut second_moments: Vec<f32> = Vec::new();
    for variant in [FedOptVariant::Adam, FedOptVariant::Yogi] {
        let mut agg = FedOptAggregator::new(variant);
        agg.run(&batch(&[0.0])).unwrap();
        agg.run(&batch(&shock)).unwrap();
        for _ in 0..10 {
            agg.run(&batch(&normal)).unwrap();
        }
        second_moments.push(moments(&agg).1[0]);
    }

    assert!(
        second_moments[1] > second_moments[0],
        "yogi's v should stay above adam's after a shock: yogi={} adam={}",
        second_moments[1],
        second_moments[0]
    );
}

#[test]
fn the_variants_genuinely_differ() {
    let mut results = Vec::new();
    for variant in [
        FedOptVariant::Adagrad,
        FedOptVariant::Adam,
        FedOptVariant::Yogi,
    ] {
        let mut agg = FedOptAggregator::new(variant);
        agg.run(&batch(&[0.0, 0.0])).unwrap();
        agg.run(&batch(&[1.0, 2.0])).unwrap();
        results.push(agg.run(&batch(&[2.0, 4.0])).unwrap());
    }
    assert_ne!(results[0], results[1], "adagrad and adam agree");
    assert_ne!(results[1], results[2], "adam and yogi agree");
}

#[test]
fn state_is_carried_across_rounds_not_recomputed() {
    let mut agg = FedOptAggregator::new(FedOptVariant::Adam);
    assert!(agg.moments().is_none(), "no moments before the first round");

    agg.run(&batch(&[0.0, 0.0])).unwrap();
    let (m0, v0) = moments(&agg);
    assert_eq!(m0, vec![0.0, 0.0]);

    agg.run(&batch(&[1.0, 1.0])).unwrap();
    let (m1, v1) = moments(&agg);
    assert_ne!(m0, m1, "the first moment should have moved");
    assert_ne!(v0, v1, "the second moment should have moved");
}

#[test]
fn a_dimension_change_reseeds_rather_than_mixing_moments() {
    let mut agg = FedOptAggregator::new(FedOptVariant::Adam);
    agg.run(&batch(&[1.0, 2.0])).unwrap();
    agg.run(&batch(&[2.0, 3.0])).unwrap();

    let out = agg.run(&batch(&[1.0, 2.0, 3.0])).unwrap();
    assert_eq!(out, vec![1.0, 2.0, 3.0], "re-seeded, not stepped");
    let (m, _) = moments(&agg);
    assert_eq!(m.len(), 3);
}

#[test]
fn extreme_but_finite_updates_do_not_produce_a_non_finite_model() {
    for variant in [
        FedOptVariant::Adagrad,
        FedOptVariant::Adam,
        FedOptVariant::Yogi,
    ] {
        let mut agg = FedOptAggregator::new(variant);
        for w in [0.0, f32::MAX, -f32::MAX, 1.0, f32::MAX] {
            match agg.run(&batch(&[w, w])) {
                Ok(out) => assert!(
                    out.iter().all(|x| x.is_finite()),
                    "{variant:?} returned {out:?}"
                ),
                Err(_) => {}
            }
        }
    }
}

#[test]
fn wrapping_a_robust_base_uses_that_bases_pseudo_gradient() {
    let mut robust = FedOptAggregator::new(FedOptVariant::Adam).with_base(
        build_aggregator(
            "krum",
            AggregatorParams::default(),
            Functions { ln, pow },
            Supplied {
                fednova: FedAvg::default(),
                scaffold: |_rate: Binary32, _clients: u32| FedAvg::default(),
            },
        )
        .unwrap_or_else(|e| panic!("{e:?}")),
    );
    let mut plain = FedOptAggregator::new(FedOptVariant::Adam);

    let poisoned = vec![
        delta("a", &[1.0, 1.0]),
        delta("b", &[1.1, 0.9]),
        delta("c", &[0.9, 1.1]),
        delta("attacker", &[500.0, 500.0]),
    ];

    let r1 = robust.run(&poisoned).unwrap();
    let p1 = plain.run(&poisoned).unwrap();

    assert!(
        r1[0] < 2.0,
        "krum-based Δ should ignore the attacker: {r1:?}"
    );
    assert!(p1[0] > 100.0, "the mean-based Δ should not: {p1:?}");
}
