use conflux::federation::demo::{
    lookup, models, names, DemoClient, DemoKind, Lcg, LinReg, LogReg, Logistic, Stub,
};
use conflux::float::binary32::Binary32;
use conflux::float::binary64::Binary64;

fn b(x: f32) -> Binary32 {
    Binary32::from_bits(x.to_bits())
}

fn f(x: Binary32) -> f32 {
    f32::from_bits(x.to_bits())
}

fn floats(values: &[Binary32]) -> Vec<f32> {
    values.iter().map(|x| f(*x)).collect()
}

fn exp(x: Binary64) -> Binary64 {
    Binary64::from_bits(f64::from_bits(x.to_bits()).exp().to_bits())
}

fn ln(x: Binary32) -> Binary32 {
    b(f(x).ln())
}

const TRUE_W: [f32; 3] = [1.5, -2.0, 0.5];
const TRUE_B: f32 = 3.0;

struct PlainLcg(u64);

impl PlainLcg {
    fn new(seed: u64) -> Self {
        Self(seed.wrapping_mul(6_364_136_223_846_793_005).wrapping_add(1))
    }

    fn next(&mut self) -> f32 {
        self.0 = self
            .0
            .wrapping_mul(6_364_136_223_846_793_005)
            .wrapping_add(1_442_695_040_888_963_407);
        ((self.0 >> 33) as f32) / ((1u64 << 30) as f32) - 1.0
    }
}

#[test]
fn every_model_is_reachable_by_name() {
    for model in models() {
        assert_eq!(lookup(model.name).map(|m| m.name), Some(model.name));
    }
    assert!(lookup("no_such_model").is_none());
}

#[test]
fn every_model_carries_a_caveat() {
    for model in models() {
        assert!(
            !model.caveat.is_empty(),
            "{} must say what it is not",
            model.name
        );
    }
}

#[test]
fn linreg_converges_when_averaged_and_no_client_gets_there_alone() {
    let clients = 3;
    let mut global = vec![0.0f32; 4];
    let mut apps: Vec<LinReg> = (0..clients).map(LinReg::for_client).collect();

    for _ in 0..40 {
        let start: Vec<Binary32> = global.iter().map(|x| b(*x)).collect();
        let updates: Vec<Vec<f32>> = apps
            .iter_mut()
            .map(|a| floats(&a.train(&start).weights))
            .collect();
        for j in 0..4 {
            global[j] = updates.iter().map(|u| u[j]).sum::<f32>() / clients as f32;
        }
    }

    let expected = [TRUE_W[0], TRUE_W[1], TRUE_W[2], TRUE_B];
    for (got, want) in global.iter().zip(expected) {
        assert!(
            (got - want).abs() < 0.05,
            "federated fit should recover {expected:?}, got {global:?}"
        );
    }

    let mut solo = LinReg::for_client(0);
    let mut alone = vec![Binary32::zero(); 4];
    for _ in 0..40 {
        alone = solo.train(&alone).weights;
    }
    let alone = floats(&alone);
    assert!(
        (alone[0] - TRUE_W[0]).abs() > 0.2,
        "client 0 freezes x0 and should not recover its coefficient: {alone:?}"
    );
}

#[test]
fn the_names_are_listed_in_order() {
    assert_eq!(names(), vec!["stub", "linreg", "logreg"]);
    let kinds: Vec<DemoKind> = models().iter().map(|m| m.kind).collect();
    assert_eq!(kinds, vec![DemoKind::Stub, DemoKind::LinReg, DemoKind::LogReg]);
    assert!(models().iter().all(|m| m.weights_dim == 4));
}

#[test]
fn the_generator_draws_the_same_numbers_as_native_arithmetic() {
    for seed in [0, 1, 1_000, u64::MAX] {
        let mut verified = Lcg::new(seed);
        let mut plain = PlainLcg::new(seed);
        for _ in 0..200 {
            let drawn = f(verified.next());
            assert_eq!(drawn.to_bits(), plain.next().to_bits());
            assert!((-1.0..1.0).contains(&drawn));
        }
    }
}

#[test]
fn one_round_of_least_squares_is_bit_identical_to_native_arithmetic() {
    let mut app = LinReg::for_client(4);
    let xs: Vec<[f32; 3]> = app.xs.iter().map(|p| [f(p.x0), f(p.x1), f(p.x2)]).collect();
    let ys = floats(&app.ys);
    let start = [0.25f32, -0.5, 0.125, 1.0];

    let mut p = start;
    for _ in 0..60 {
        let mut grad = [0.0f32; 4];
        for (x, y) in xs.iter().zip(&ys) {
            let error = p[0] * x[0] + p[1] * x[1] + p[2] * x[2] + p[3] - y;
            for (j, xj) in x.iter().enumerate() {
                grad[j] += 2.0 * error * xj;
            }
            grad[3] += 2.0 * error;
        }
        for (w, g) in p.iter_mut().zip(grad) {
            *w -= 0.05 * g / 120.0;
        }
    }

    let weights: Vec<Binary32> = start.iter().map(|x| b(*x)).collect();
    let result = app.train(&weights);
    assert_eq!(floats(&result.weights), p.to_vec());
    assert_eq!(result.num_samples, 120);
    assert_eq!(result.local_steps, Some(60));
    assert!(result.local_loss.is_none());
    assert_eq!(app.seen, weights);
}

#[test]
fn one_round_of_logistic_regression_is_bit_identical_to_native_arithmetic() {
    let mut app = LogReg::for_client(1);
    let xs: Vec<[f32; 3]> = app.xs.iter().map(|p| [f(p.x0), f(p.x1), f(p.x2)]).collect();
    let ys = floats(&app.ys);

    let mut p = [0.0f32; 4];
    let mut loss = 0.0f32;
    for _ in 0..60 {
        let mut grad = [0.0f32; 4];
        loss = 0.0;
        for (x, y) in xs.iter().zip(&ys) {
            let z = p[0] * x[0] + p[1] * x[1] + p[2] * x[2] + p[3];
            let pred = (1.0 / (1.0 + (-(z as f64)).exp())) as f32;
            let error = pred - y;
            for (j, xj) in x.iter().enumerate() {
                grad[j] += error * xj;
            }
            grad[3] += error;
            loss -= y * pred.max(1e-7).ln() + (1.0 - y) * (1.0 - pred).max(1e-7).ln();
        }
        for (w, g) in p.iter_mut().zip(grad) {
            *w -= 0.5 * g / 120.0;
        }
    }

    let result = app.train(&Logistic { exp, ln }, &[Binary32::zero(); 4]);
    assert_eq!(floats(&result.weights), p.to_vec());
    assert_eq!(result.local_loss.map(f), Some(loss / 120.0));
}

#[test]
fn the_true_model_scores_perfectly() {
    let truth: Vec<Binary32> = [1.5, -2.0, 0.5, 3.0].iter().map(|x| b(*x)).collect();
    let score = lookup("linreg").unwrap().score(&truth).unwrap();
    assert_eq!((score.label, f(score.value)), ("held-out MSE", 0.0));
    assert!(score.lower_is_better);

    let boundary: Vec<Binary32> = [1.5, -2.0, 0.5, 0.0].iter().map(|x| b(*x)).collect();
    let score = lookup("logreg").unwrap().score(&boundary).unwrap();
    assert_eq!(score.label, "held-out accuracy");
    assert!(f(score.value) > 0.99);
    assert!(!score.lower_is_better);

    assert!(lookup("stub").unwrap().score(&truth).is_none());
}

#[test]
fn the_stub_answers_a_half_everywhere() {
    let mut stub = Stub::new();
    let result = stub.train(&[b(7.0), b(8.0)]);
    assert_eq!(floats(&result.weights), vec![0.5, 0.5]);
    assert_eq!(result.num_samples, 1);
    assert_eq!(floats(&stub.seen), vec![7.0, 8.0]);
}

#[test]
fn a_model_makes_a_client_of_its_kind() {
    for model in models() {
        let mut client = model.make(2);
        match (&client, model.kind) {
            (DemoClient::Stub(_), DemoKind::Stub) => {}
            (DemoClient::LinReg(_), DemoKind::LinReg) => {}
            (DemoClient::LogReg(_), DemoKind::LogReg) => {}
            _ => panic!("{} made another client", model.name),
        }
        let result = client.train(&Logistic { exp, ln }, &[Binary32::zero(); 4]);
        assert_eq!(result.weights.len(), 4);
    }
}
