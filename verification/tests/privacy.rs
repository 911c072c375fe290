use conflux::float::binary32::Binary32;
use conflux::float::binary64::Binary64;
use conflux::privacy::accountant::{
    rdp_per_round, sampled_gaussian_rdp, LogExp, PrivacyAccountant, RdpAccountant,
};
use conflux::privacy::mechanism::{
    build_privacy_mechanism, known_mechanisms, l2_norm, GaussianClippingPrivacy, PrivacyMechanism,
    PrivacyMechanismBuildError,
};

fn b(x: f32) -> Binary32 {
    Binary32::from_bits(x.to_bits())
}

fn floats(values: &[Binary32]) -> Vec<f32> {
    values.iter().map(|x| f32::from_bits(x.to_bits())).collect()
}

fn binary(values: &[f32]) -> Vec<Binary32> {
    values.iter().map(|x| b(*x)).collect()
}

fn d(x: f64) -> Binary64 {
    Binary64::from_bits(x.to_bits())
}

fn double(x: Binary64) -> f64 {
    f64::from_bits(x.to_bits())
}

fn ln(x: Binary64) -> Binary64 {
    d(double(x).ln())
}

fn exp(x: Binary64) -> Binary64 {
    d(double(x).exp())
}

type Function = fn(Binary64) -> Binary64;

fn functions() -> LogExp<Function, Function> {
    LogExp { ln, exp }
}

fn new_accountant() -> RdpAccountant<Function, Function> {
    RdpAccountant::new(functions())
}

fn sampled(alpha: f64, sigma: f64, q: f64) -> Option<f64> {
    sampled_gaussian_rdp(&functions(), d(alpha), d(sigma), d(q)).map(double)
}

fn per_round(alpha: f64, sigma: f64, q: f64) -> f64 {
    double(rdp_per_round(&functions(), d(alpha), d(sigma), d(q)))
}

fn no_noise() -> Vec<Binary64> {
    vec![Binary64::zero(); 2]
}

#[test]
fn build_privacy_mechanism_succeeds_for_gaussian_clipping() {
    assert!(build_privacy_mechanism("gaussian_clipping", b(1.0), b(1.0)).is_ok());
}

#[test]
fn build_privacy_mechanism_fails_for_an_unknown_name() {
    match build_privacy_mechanism("does_not_exist", b(1.0), b(1.0)) {
        Err(PrivacyMechanismBuildError::Unknown(name)) => assert_eq!(name, "does_not_exist"),
        Ok(_) => panic!("expected an error, got a constructed PrivacyMechanism"),
    }
}

#[test]
fn the_unknown_name_error_lists_the_registered_names() {
    let err = match build_privacy_mechanism("nope", b(1.0), b(1.0)) {
        Err(err) => err,
        Ok(_) => panic!("expected an error"),
    };
    assert!(err.message().contains("gaussian_clipping"), "{err:?}");
}

#[test]
fn privacy_every_buildable_name_is_also_registry_visible() {
    assert!(build_privacy_mechanism("gaussian_clipping", b(1.0), b(1.0)).is_ok());
    assert!(
        known_mechanisms().contains("gaussian_clipping")
    );
}

#[test]
fn registry_constructed_mechanism_behaves_like_the_concrete_type() {
    let mechanism = build_privacy_mechanism("gaussian_clipping", b(1.0), b(0.0)).unwrap();
    let mut weights = binary(&[3.0, 4.0]);

    mechanism.transform(&mut weights, &no_noise());

    assert!((f32::from_bits(l2_norm(&weights).to_bits()) - 1.0).abs() < 1e-5);
}

#[test]
fn clip_scales_down_vector_above_bound() {
    let privacy = GaussianClippingPrivacy {
        clip_norm: b(1.0),
        noise_multiplier: b(1.0),
    };
    let mut weights = binary(&[3.0, 4.0]);

    privacy.clip(&mut weights);

    assert!((f32::from_bits(l2_norm(&weights).to_bits()) - 1.0).abs() < 1e-5);
}

#[test]
fn clip_leaves_vector_within_bound_unchanged() {
    let privacy = GaussianClippingPrivacy {
        clip_norm: b(10.0),
        noise_multiplier: b(1.0),
    };
    let mut weights = binary(&[3.0, 4.0]);

    privacy.clip(&mut weights);

    assert_eq!(floats(&weights), vec![3.0, 4.0]);
}

#[test]
fn clipping_a_zero_vector_never_divides_by_zero() {
    let privacy = GaussianClippingPrivacy {
        clip_norm: b(1.0),
        noise_multiplier: b(1.0),
    };
    let mut weights = binary(&[0.0, 0.0, 0.0]);

    privacy.clip(&mut weights);

    assert_eq!(floats(&weights), vec![0.0, 0.0, 0.0]);
}

#[test]
fn a_negative_noise_scale_adds_no_noise_instead_of_panicking() {
    let privacy = GaussianClippingPrivacy {
        clip_norm: b(1.0),
        noise_multiplier: b(-1.0),
    };
    let mut weights = binary(&[0.5, 0.5]);

    privacy.add_noise(&mut weights, &no_noise());

    assert_eq!(floats(&weights), vec![0.5, 0.5]);
}

#[test]
fn budget_is_never_exhausted_against_a_zero_target_epsilon_with_no_rounds() {
    let accountant = new_accountant();

    assert!(accountant.budget_exhausted(d(0.0), d(1e-5)));
}

#[test]
fn zero_noise_multiplier_is_deterministic_clip_only() {
    let privacy = GaussianClippingPrivacy {
        clip_norm: b(1.0),
        noise_multiplier: b(0.0),
    };
    let mut weights = binary(&[3.0, 4.0]);

    privacy.transform(&mut weights, &no_noise());

    assert!((f32::from_bits(l2_norm(&weights).to_bits()) - 1.0).abs() < 1e-5);
}

#[test]
fn epsilon_is_zero_with_no_rounds() {
    let accountant = new_accountant();

    assert_eq!(double(accountant.current_epsilon(d(1e-5))), 0.0);
}

const REFERENCE: &[(f64, f64, f64, f64)] = &[
    (2.0, 1.0, 0.01, 1.718134220744e-04),
    (4.0, 2.0, 0.1, 6.003282964490e-03),
    (8.0, 2.0, 0.05, 3.121526642301e-03),
    (16.0, 4.0, 0.01, 5.207209700579e-05),
    (3.0, 1.0, 0.5, 6.968891185980e-01),
];

#[test]
fn subsampled_rdp_matches_the_definition_integrated_numerically() {
    for &(alpha, sigma, q, expected) in REFERENCE {
        let got = sampled(alpha, sigma, q)
            .unwrap_or_else(|| panic!("α={alpha} σ={sigma} q={q} should be computable"));
        let relative = (got - expected).abs() / expected;
        assert!(
            relative < 1e-9,
            "α={alpha} σ={sigma} q={q}: got {got:e}, expected {expected:e} (relative {relative:e})"
        );
    }
}

#[test]
fn full_participation_is_exactly_the_non_subsampled_bound() {
    for (alpha, sigma) in [(2.0, 1.0), (8.0, 2.0), (64.0, 4.0)] {
        assert_eq!(sampled(alpha, sigma, 1.0), None);
        assert_eq!(
            per_round(alpha, sigma, 1.0),
            alpha / (2.0 * sigma * sigma)
        );
    }
}

#[test]
fn sampling_a_fraction_costs_less_than_exposing_everyone() {
    for &(alpha, sigma, q, _) in REFERENCE {
        let sampled = per_round(alpha, sigma, q);
        let full = per_round(alpha, sigma, 1.0);
        assert!(
            sampled < full,
            "α={alpha} σ={sigma} q={q}: {sampled} !< {full}"
        );
    }
}

#[test]
fn a_smaller_sampling_rate_costs_less_at_every_order() {
    for &alpha in &[2.0, 8.0, 32.0] {
        let mut previous = f64::INFINITY;
        for &q in &[0.5, 0.2, 0.1, 0.01, 0.001] {
            let rdp = per_round(alpha, 1.5, q);
            assert!(rdp < previous, "α={alpha} q={q}: {rdp} !< {previous}");
            previous = rdp;
        }
    }
}

#[test]
fn a_non_integer_order_declines_rather_than_guessing() {
    assert_eq!(sampled(2.5, 1.0, 0.1), None);
    assert_eq!(sampled(1.25, 1.0, 0.1), None);
    assert_eq!(per_round(2.5, 1.0, 0.1), 2.5 / 2.0);
}

#[test]
fn an_unusable_sampling_rate_or_noise_scale_falls_back_instead_of_failing() {
    for q in [0.0, -0.1, 1.5, f64::NAN] {
        assert_eq!(sampled(4.0, 1.0, q), None);
    }
    assert_eq!(sampled(4.0, 0.0, 0.1), None);
    let extreme = per_round(256.0, 0.01, 0.001);
    assert!(extreme.is_finite() && extreme > 0.0, "got {extreme}");
}

#[test]
fn the_accountant_charges_a_sampling_deployment_far_less_than_a_full_one() {
    let mut sampled = new_accountant();
    let mut full = new_accountant();
    for _ in 0..10_000 {
        sampled.record_round(b(1.0), b(0.01));
        full.record_round(b(1.0), b(1.0));
    }
    let (a, b) = (double(sampled.current_epsilon(d(1e-5))), double(full.current_epsilon(d(1e-5))));
    assert!(a < b / 100.0, "sampled {a} should be far below full {b}");
    assert!(a > 0.0 && a.is_finite(), "got {a}");
}

#[test]
fn rounds_at_the_same_configuration_compose_linearly_in_rdp() {
    let mut many = new_accountant();
    for _ in 0..1_000 {
        many.record_round(b(1.5), b(0.05));
    }
    let mut mixed = new_accountant();
    for _ in 0..500 {
        mixed.record_round(b(1.5), b(0.05));
    }
    for _ in 0..500 {
        mixed.record_round(b(1.5), b(0.05));
    }
    assert_eq!(double(many.current_epsilon(d(1e-5))), double(mixed.current_epsilon(d(1e-5))));
}

#[test]
fn more_rounds_increases_epsilon() {
    let mut accountant = new_accountant();
    accountant.record_round(b(1.0), b(0.1));
    let after_one = double(accountant.current_epsilon(d(1e-5)));

    accountant.record_round(b(1.0), b(0.1));
    let after_two = double(accountant.current_epsilon(d(1e-5)));

    assert!(after_two > after_one);
}

#[test]
fn higher_noise_multiplier_decreases_epsilon() {
    let mut low_noise = new_accountant();
    low_noise.record_round(b(1.0), b(0.1));

    let mut high_noise = new_accountant();
    high_noise.record_round(b(2.0), b(0.1));

    assert!(double(low_noise.current_epsilon(d(1e-5))) > double(high_noise.current_epsilon(d(1e-5))));
}

#[test]
fn budget_exhausted_flips_true_once_epsilon_exceeds_target() {
    let mut accountant = new_accountant();

    assert!(!accountant.budget_exhausted(d(0.5), d(1e-5)));

    for _ in 0..50 {
        accountant.record_round(b(1.0), b(0.1));
    }

    assert!(accountant.budget_exhausted(d(0.5), d(1e-5)));
}

#[test]
fn client_epsilon_is_zero_for_a_client_with_no_recorded_rounds() {
    let accountant = new_accountant();

    assert_eq!(double(accountant.current_epsilon_for_client("client-a", d(1e-5))), 0.0);
}

#[test]
fn two_clients_composing_independently_never_affect_each_others_total() {
    let mut accountant = new_accountant();

    for _ in 0..10 {
        accountant.record_round_for_client("heavy-user", b(1.0), b(0.1));
    }
    accountant.record_round_for_client("light-user", b(1.0), b(0.1));

    let heavy = double(accountant.current_epsilon_for_client("heavy-user", d(1e-5)));
    let light = double(accountant.current_epsilon_for_client("light-user", d(1e-5)));

    assert!(heavy > light);
    assert_eq!(
        light,
        {
            let mut solo = new_accountant();
            solo.record_round_for_client("light-user", b(1.0), b(0.1));
            double(solo.current_epsilon_for_client("light-user", d(1e-5)))
        },
        "light-user's epsilon must match what it would be in total isolation from heavy-user"
    );
}

#[test]
fn a_clients_own_epsilon_increases_monotonically_across_rounds() {
    let mut accountant = new_accountant();

    let mut previous = double(accountant.current_epsilon_for_client("client-a", d(1e-5)));
    for _ in 0..5 {
        accountant.record_round_for_client("client-a", b(1.0), b(0.1));
        let current = double(accountant.current_epsilon_for_client("client-a", d(1e-5)));
        assert!(current > previous);
        previous = current;
    }
}

#[test]
fn per_client_budget_exhausted_flips_true_independently_per_client() {
    let mut accountant = new_accountant();

    for _ in 0..50 {
        accountant.record_round_for_client("heavy-user", b(1.0), b(0.1));
    }

    assert!(accountant.budget_exhausted_for_client("heavy-user", d(0.5), d(1e-5)));
    assert!(!accountant.budget_exhausted_for_client("light-user", d(0.5), d(1e-5)));
}

#[test]
fn global_and_per_client_history_are_recorded_independently() {
    let mut accountant = new_accountant();
    accountant.record_round(b(1.0), b(0.1));
    accountant.record_round_for_client("client-a", b(1.0), b(0.1));

    assert!(double(accountant.current_epsilon(d(1e-5))) > 0.0);
    assert!(double(accountant.current_epsilon_for_client("client-a", d(1e-5))) > 0.0);
    assert_eq!(double(accountant.current_epsilon_for_client("client-b", d(1e-5))), 0.0);
}

#[test]
fn client_ids_lists_every_client_with_at_least_one_recorded_round() {
    let mut accountant = new_accountant();
    accountant.record_round_for_client("client-a", b(1.0), b(0.1));
    accountant.record_round_for_client("client-b", b(1.0), b(0.1));

    let mut ids: Vec<String> = accountant.client_ids();
    ids.sort();
    assert_eq!(ids, vec!["client-a", "client-b"]);
}

#[test]
fn noise_is_added_in_single_precision_to_each_weight() {
    let privacy = GaussianClippingPrivacy {
        clip_norm: b(2.0),
        noise_multiplier: b(1.5),
    };
    assert_eq!(privacy.standard_deviation().map(double), Some(3.0));

    let mut weights = binary(&[1.0, -2.0]);
    privacy.add_noise(&mut weights, &[d(0.1), d(1e-12)]);

    assert_eq!(floats(&weights), vec![1.0f32 + 0.1f64 as f32, -2.0]);
}

#[test]
fn a_non_positive_noise_scale_asks_for_no_samples() {
    for noise_multiplier in [0.0, -1.0, f32::NAN] {
        let privacy = GaussianClippingPrivacy {
            clip_norm: b(1.0),
            noise_multiplier: b(noise_multiplier),
        };
        assert!(privacy.noise_scale().is_none());
    }
}
