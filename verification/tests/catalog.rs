use conflux::aggregator::Aggregator;
use conflux::averaging::FedAvg;
use conflux::catalog::{
    build_aggregator, is_registered, known_aggregators, registered_names, AggregatorBuildError,
    AggregatorParams, CatalogAggregator, Functions, Supplied,
};
use conflux::delta::ClientDelta;
use conflux::flanders::filter::FlandersAggregator;
use conflux::float::binary32::Binary32;
use conflux::float::binary64::Binary64;
use conflux::optimization::fedavgm::FedAvgMAggregator;
use conflux::robust::coordinate::{CoordinateWiseAggregator, MedianStatistic};
use conflux::trusted::fltrust::TrustedReference;

const NAMES: &[&str] = &[
    "fedavg",
    "krum",
    "multi_krum",
    "trimmed_mean",
    "median",
    "faba",
    "bulyan",
    "geometric_median",
    "median_of_means",
    "divide_and_conquer",
    "foolsgold",
    "centered_clipping",
];

fn ln(x: Binary32) -> Binary32 {
    Binary32::from_bits(f32::from_bits(x.to_bits()).ln().to_bits())
}

fn pow(x: Binary64, y: Binary64) -> Binary64 {
    let power = f64::from_bits(x.to_bits()).powf(f64::from_bits(y.to_bits()));
    Binary64::from_bits(power.to_bits())
}

type Ln = fn(Binary32) -> Binary32;
type Pow = fn(Binary64, Binary64) -> Binary64;

type Built = CatalogAggregator<Ln, Pow, FedAvg, CoordinateWiseAggregator<MedianStatistic>>;

fn build_with(name: &str, params: AggregatorParams) -> Result<Built, AggregatorBuildError> {
    let functions: Functions<Ln, Pow> = Functions { ln, pow };
    let supplied = Supplied {
        fednova: FedAvg::default(),
        scaffold: |_rate: Binary32, _clients: u32| CoordinateWiseAggregator::new(MedianStatistic),
    };
    build_aggregator(name, params, functions, supplied)
}

fn build(name: &str) -> Result<Built, AggregatorBuildError> {
    build_with(name, AggregatorParams::default())
}

fn client_delta(client_id: &str, weights: &[f32]) -> ClientDelta {
    ClientDelta {
        client_id: client_id.to_string(),
        round: 1,
        weights: weights.iter().flat_map(|w| w.to_le_bytes()).collect(),
        num_samples: 10,
        local_loss: None,
    }
}

#[test]
fn build_aggregator_succeeds_for_every_shipped_name() {
    for &name in NAMES {
        assert!(build(name).is_ok(), "{name} failed to build");
    }
}

#[test]
fn build_aggregator_fails_for_an_unknown_name() {
    match build("does_not_exist") {
        Err(AggregatorBuildError::Unknown(name)) => assert_eq!(name, "does_not_exist"),
        Err(other) => panic!("expected Unknown, got {other:?}"),
        Ok(_) => panic!("expected an error, got a constructed Aggregator"),
    }
}

#[test]
fn a_client_side_method_is_distinguished_from_a_typo() {
    match build("fedprox") {
        Err(AggregatorBuildError::ClientSideOnly(name)) => {
            assert_eq!(name, "fedprox");
        }
        Err(other) => panic!("expected ClientSideOnly, got {other:?}"),
        Ok(_) => panic!("fedprox has no server-side aggregator to build"),
    }
}

#[test]
fn the_unknown_name_error_lists_every_registered_aggregator() {
    let message = build("nope").err().expect("unknown name errors").message();
    for &name in NAMES {
        assert!(
            message.contains(name),
            "the error should offer {name} as an alternative, got: {message}"
        );
    }
}

#[test]
fn lib_every_buildable_name_is_also_registry_visible() {
    for &name in NAMES {
        assert!(build(name).is_ok());
        assert!(
            is_registered(name),
            "{name} is buildable but not registry-visible"
        );
    }
}

#[test]
fn the_methods_beyond_the_first_dozen_build_too() {
    for name in ["fltrust", "flanders", "fedyogi", "fedadam", "fedadagrad"] {
        assert!(build(name).is_ok(), "{name} failed to build");
    }
    assert!(build("fedavgm").is_ok());
    assert!(build("qfedavg").is_ok());
    for name in registered_names() {
        assert!(build(&name).is_ok(), "{name} failed to build");
    }
}

#[test]
fn the_supplied_methods_are_built_under_their_names() {
    let batch = [
        client_delta("a", &[0.0]),
        client_delta("b", &[1.0]),
        client_delta("c", &[8.0]),
    ];
    let mut fednova = build("fednova").unwrap_or_else(|e| panic!("{e:?}"));
    let mean = f32::from_bits(fednova.aggregate(&batch).unwrap()[0].to_bits());
    assert!((mean - 3.0).abs() < 1e-5, "got {mean}");
    let mut scaffold = build("scaffold").unwrap_or_else(|e| panic!("{e:?}"));
    let median = f32::from_bits(scaffold.aggregate(&batch).unwrap()[0].to_bits());
    assert_eq!(median, 1.0);
    assert!(scaffold.control_variate().is_none());
}

#[test]
fn scaffold_is_made_for_its_rate_and_population() {
    let made = |rate: Option<f32>, clients: Option<u32>| {
        let params = AggregatorParams {
            server_learning_rate: rate.map(|x| Binary32::from_bits(x.to_bits())),
            scaffold_num_clients: clients,
            ..AggregatorParams::default()
        };
        let supplied = Supplied {
            fednova: FedAvg::default(),
            scaffold: |rate: Binary32, clients: u32| FedAvgMAggregator {
                beta: rate,
                server_learning_rate: Binary32::from_u64(u64::from(clients)),
                ..FedAvgMAggregator::new()
            },
        };
        let functions: Functions<Ln, Pow> = Functions { ln, pow };
        match build_aggregator("scaffold", params, functions, supplied) {
            Ok(CatalogAggregator::Scaffold(a)) => (
                f32::from_bits(a.beta.to_bits()),
                f32::from_bits(a.server_learning_rate.to_bits()),
            ),
            _ => panic!("expected SCAFFOLD"),
        }
    };
    assert_eq!(made(None, None), (1.0, 1.0));
    assert_eq!(made(Some(0.25), None), (0.25, 1.0));
    assert_eq!(made(Some(0.5), Some(40)), (0.5, 40.0));
}

#[test]
fn the_one_knob_sizes_the_flanders_filter_too() {
    for fraction in [0.0f32, 0.4] {
        let params = AggregatorParams {
            byzantine_fraction: Binary32::from_bits(fraction.to_bits()),
            ..AggregatorParams::default()
        };
        match build_with("flanders", params) {
            Ok(CatalogAggregator::Flanders(FlandersAggregator { tuning, .. })) => {
                assert_eq!(tuning.byzantine_fraction.to_bits(), fraction.to_bits());
            }
            _ => panic!("expected FLANDERS"),
        }
    }
}

#[test]
fn the_known_names_are_the_registered_ones() {
    let known = known_aggregators();
    for name in registered_names() {
        assert!(known.contains(&name));
    }
    assert!(!is_registered("does_not_exist"));
}

#[test]
fn only_fltrust_asks_for_a_trusted_reference() {
    for name in registered_names() {
        if let Ok(aggregator) = build(&name) {
            assert_eq!(aggregator.requires_trusted_reference(), name == "fltrust");
            assert!(aggregator.control_variate().is_none());
        }
    }

    let one: Binary32 = Binary32::one();
    let zero: Binary32 = Binary32::zero();
    let mut fltrust = build("fltrust").unwrap();
    assert!(fltrust.aggregate(&[client_delta("a", &[1.0])]).is_err());
    fltrust.set_trusted_reference(TrustedReference {
        global_weights: vec![zero],
        reference_weights: vec![one],
    });
    let model = fltrust.aggregate(&[client_delta("a", &[1.0])]).unwrap();
    assert_eq!(model, vec![one]);
}
