use conflux::float::binary32::Binary32;
use conflux::float::binary64::Binary64;
use conflux::net::message::DeltaChunk;
use conflux::node::bridge::{
    apply_local_privacy, assemble, local_heartbeat, local_registration, may_fetch, may_subscribe,
    ConnectionMode,
};
use conflux::node::relay::{give_up_message, RelayAction, RelayEvent, RelayState};
use conflux::node::retry::{RetryState, RetryStep, MAX_ATTEMPTS};
use conflux::node::run::{RunError, Stage};
use conflux::node::settings::{
    resolve_client_tls, ClientTls, NodeConfig, NodeEnvironment, TlsPaths, PLACEHOLDER_AUTH_TOKEN,
};
use conflux::node::startup_guard::{ClientAppKind, RuntimeMode, StartupGuardError};
use conflux::privacy::mechanism::GaussianClippingPrivacy;
use conflux::weights::{decode_weights, encode_weights};

fn b(x: f32) -> Binary32 {
    Binary32::from_bits(x.to_bits())
}

fn binary(values: &[f32]) -> Vec<Binary32> {
    values.iter().map(|x| b(*x)).collect()
}

fn decoded(bytes: &[u8]) -> Vec<f32> {
    decode_weights("a", bytes)
        .unwrap()
        .iter()
        .map(|x| f32::from_bits(x.to_bits()))
        .collect()
}

fn chunk(index: u32, total: u32, weights: &[f32]) -> DeltaChunk {
    DeltaChunk {
        client_id: "py-client".to_string(),
        round: 1,
        chunk_index: index,
        total_chunks: total,
        data: encode_weights(&binary(weights)),
        num_samples: 42,
        control_variate: None,
    }
}

fn mechanism(clip_norm: f32, noise_multiplier: f32) -> GaussianClippingPrivacy {
    GaussianClippingPrivacy {
        clip_norm: b(clip_norm),
        noise_multiplier: b(noise_multiplier),
    }
}

fn l2(weights: &[f32]) -> f32 {
    weights.iter().map(|w| w * w).sum::<f32>().sqrt()
}

fn research_default() -> NodeConfig {
    NodeConfig {
        mode: RuntimeMode::Research,
        allow_stub_client: true,
        client_app_kind: ClientAppKind::Stub,
        server_addr: "http://127.0.0.1:50051".to_string(),
        client_id: "node-1".to_string(),
        local_addr: "127.0.0.1:47100".to_string(),
        connection_mode: ConnectionMode::Pull,
        local_privacy: None,
        privacy_seed: None,
        auth_token: PLACEHOLDER_AUTH_TOKEN.to_string(),
        client_tls: ClientTls::Plaintext,
    }
}

fn no_tls() -> TlsPaths {
    TlsPaths {
        client_cert: None,
        client_key: None,
        server_ca: None,
        domain: None,
    }
}

fn empty_environment() -> NodeEnvironment {
    NodeEnvironment {
        mode: None,
        allow_stub_client: None,
        client_app_kind: None,
        connection_mode: None,
        client_side_privacy_transform: None,
        clip_norm: None,
        noise_multiplier: None,
        server_addr: None,
        client_id: None,
        local_addr: None,
        seed_value: None,
        auth_token: None,
        tls: no_tls(),
    }
}

fn some(text: &str) -> Option<String> {
    Some(text.to_string())
}

#[test]
fn a_config_built_in_code_still_cannot_run_production_on_the_stub() {
    let config = NodeConfig {
        mode: RuntimeMode::Production,
        allow_stub_client: false,
        client_app_kind: ClientAppKind::Stub,
        ..research_default()
    };

    let err = config.next_stage(Stage::Binding, Ok(())).unwrap_err();

    assert!(
        matches!(
            err,
            RunError::StartupGuard(StartupGuardError::ProductionRefusesStubClient)
        ),
        "expected the stub-client guard, got: {}",
        err.message()
    );
}

#[test]
fn from_env_and_a_hand_built_config_describe_the_same_shape() {
    let built = research_default();
    assert_eq!(built.connection_mode, ConnectionMode::Pull);
    assert_eq!(built.client_tls.label(), "off");
    assert!(built.local_privacy.is_none());
}

#[test]
fn an_empty_environment_resolves_to_the_documented_defaults() {
    let config = NodeConfig::from_env(empty_environment()).unwrap();
    assert_eq!(config.mode, RuntimeMode::Research);
    assert!(config.allow_stub_client);
    assert_eq!(config.client_app_kind, ClientAppKind::Stub);
    assert_eq!(config.server_addr, "http://127.0.0.1:50051");
    assert_eq!(config.client_id, "node-1");
    assert_eq!(config.local_addr, "127.0.0.1:47100");
    assert_eq!(config.connection_mode, ConnectionMode::Pull);
    assert!(config.local_privacy.is_none());
    assert!(config.privacy_seed.is_none());
    assert_eq!(config.auth_token, "node-auth-token");
    assert!(!config.has_custom_auth_token());
    assert_eq!(config.client_tls.label(), "off");
    assert!(config.may_start().is_ok());
}

#[test]
fn every_variable_is_read() {
    let config = NodeConfig::from_env(NodeEnvironment {
        mode: some("production"),
        allow_stub_client: some("true"),
        client_app_kind: some("real"),
        connection_mode: some("push"),
        client_side_privacy_transform: some("true"),
        clip_norm: Some(b(0.5)),
        noise_multiplier: None,
        server_addr: some("http://10.0.0.1:1"),
        client_id: some("silo"),
        local_addr: some("127.0.0.1:9"),
        seed_value: Some(7),
        auth_token: some("token"),
        tls: TlsPaths {
            server_ca: some("ca.pem"),
            domain: some("fl.example"),
            ..no_tls()
        },
    })
    .unwrap();
    assert_eq!(config.mode, RuntimeMode::Production);
    assert!(config.allow_stub_client);
    assert_eq!(config.client_app_kind, ClientAppKind::Real);
    assert_eq!(config.connection_mode, ConnectionMode::Push);
    let privacy = config.local_privacy.unwrap();
    assert_eq!(privacy.clip_norm, b(0.5));
    assert_eq!(privacy.noise_multiplier, b(1.0));
    assert_eq!(config.server_addr, "http://10.0.0.1:1");
    assert_eq!(config.client_id, "silo");
    assert_eq!(config.privacy_seed, Some(7));
    assert!(config.has_custom_auth_token());
    assert_eq!(config.client_tls.label(), "server-auth");
}

#[test]
fn production_defaults_to_refusing_the_stub() {
    let config = NodeConfig::from_env(NodeEnvironment {
        mode: some("production"),
        ..empty_environment()
    })
    .unwrap();
    assert!(!config.allow_stub_client);
    assert!(config.may_start().is_err());
}

#[test]
fn a_half_set_tls_configuration_is_never_plaintext() {
    assert!(matches!(
        resolve_client_tls(no_tls()),
        ClientTls::Plaintext
    ));
    let all = || TlsPaths {
        client_cert: some("cert"),
        client_key: some("key"),
        server_ca: some("ca"),
        domain: some("domain"),
    };
    assert_eq!(resolve_client_tls(all()).label(), "mutual");
    for half in [
        TlsPaths { domain: None, ..all() },
        TlsPaths { server_ca: None, ..all() },
        TlsPaths { client_key: None, ..all() },
        TlsPaths { client_cert: some("cert"), ..no_tls() },
        TlsPaths { domain: some("domain"), ..no_tls() },
        TlsPaths { server_ca: None, domain: None, ..all() },
    ] {
        assert!(!half.is_complete());
        let environment = NodeEnvironment {
            tls: half,
            ..empty_environment()
        };
        assert!(NodeConfig::from_env(environment).is_none());
    }
}

#[test]
fn each_stage_reports_its_own_failure() {
    let config = research_default();
    let mut stage = Stage::Binding;
    let mut passed = Vec::new();
    while stage != Stage::Stopped {
        passed.push(stage);
        stage = config.next_stage(stage, Ok(())).unwrap();
    }
    assert_eq!(
        passed,
        vec![
            Stage::Binding,
            Stage::Connecting,
            Stage::Registering,
            Stage::Listening,
            Stage::Serving
        ]
    );

    let texts: Vec<String> = passed
        .iter()
        .map(|s| config.next_stage(*s, Err("no".to_string())).unwrap_err().message())
        .collect();
    assert_eq!(
        texts,
        vec![
            "cannot bind the local listener on 127.0.0.1:47100: no",
            "failed to connect to conflux-server: no",
            "failed to register with conflux-server: no",
            "the local listener would not report its own address: no",
            "local grpc server failed: no",
        ]
    );
    let invalid = RunError::InvalidVar {
        var: "CONFLUX_SEED_VALUE".to_string(),
        value: "a\"b".to_string(),
        message: "no".to_string(),
    };
    assert_eq!(
        invalid.message(),
        "CONFLUX_SEED_VALUE=\"a\\\"b\" is not valid: no"
    );
}

#[test]
fn fetch_task_retries_through_transient_upstream_failures() {
    let mut retry = RetryState::new();
    assert_eq!(retry.failed(), RetryStep::WaitThenRetry(50));
    assert_eq!(retry.failed(), RetryStep::WaitThenRetry(100));
    assert_eq!(retry.failed(), RetryStep::GiveUp);
}

#[test]
fn a_dropped_upstream_subscription_is_re_established_and_still_delivers() {
    let mut relay = RelayState::new();
    for wait in [50, 100] {
        assert_eq!(relay.step(RelayEvent::Subscribed), RelayAction::ReadNext);
        assert_eq!(
            relay.step(RelayEvent::StreamEnded),
            RelayAction::WaitThenSubscribe(wait)
        );
    }
    assert_eq!(relay.step(RelayEvent::Subscribed), RelayAction::ReadNext);
    assert_eq!(relay.step(RelayEvent::TaskArrived), RelayAction::Forward);
    assert_eq!(
        relay.step(RelayEvent::StreamEnded),
        RelayAction::WaitThenSubscribe(50)
    );
}

#[test]
fn a_server_that_keeps_closing_subscriptions_surfaces_an_error_instead_of_stalling() {
    let mut relay = RelayState::new();
    let mut subscriptions = 0;
    let mut waited = 0;
    loop {
        subscriptions += 1;
        relay.step(RelayEvent::Subscribed);
        match relay.step(RelayEvent::StreamEnded) {
            RelayAction::WaitThenSubscribe(millis) => waited += millis,
            action => {
                assert_eq!(action, RelayAction::GiveUp);
                break;
            }
        }
    }
    assert_eq!(subscriptions, 3);
    assert_eq!(waited, 150);
    assert!(give_up_message(MAX_ATTEMPTS).contains("without delivering a task"));
}

#[test]
fn the_relay_stops_when_nobody_listens() {
    let mut relay = RelayState::new();
    relay.step(RelayEvent::Subscribed);
    assert_eq!(relay.step(RelayEvent::LocalGone), RelayAction::Stop);
}

#[test]
fn each_mode_explains_itself_when_asked_for_the_other_modes_rpc() {
    let text = may_fetch(ConnectionMode::Push).unwrap_err().message();
    assert!(text.contains("push mode"), "unexpected message: {text}");
    assert!(text.contains("subscribe_tasks"), "unexpected message: {text}");
    assert!(may_fetch(ConnectionMode::Pull).is_ok());

    let text = may_subscribe(ConnectionMode::Pull).unwrap_err().message();
    assert!(text.contains("pull mode"), "unexpected message: {text}");
    assert!(text.contains("fetch_task"), "unexpected message: {text}");
    assert!(may_subscribe(ConnectionMode::Push).is_ok());

    assert_eq!(ConnectionMode::Push.as_str(), "push");
    assert_eq!(ConnectionMode::Pull.as_str(), "pull");
}

#[test]
fn the_local_hop_answers_for_itself() {
    assert!(local_registration().accepted);
    assert!(local_heartbeat().acknowledged);
}

#[test]
fn with_the_transform_off_a_submission_arrives_byte_identical() {
    let raw = [3.0f32, 4.0, 12.0];
    let sent = apply_local_privacy(None, vec![chunk(0, 1, &raw)], &[]).unwrap();
    assert_eq!(sent.len(), 1);
    assert_eq!(sent[0].data, encode_weights(&binary(&raw)));
}

#[test]
fn with_the_transform_on_the_update_is_clipped_and_noised_before_it_leaves() {
    let raw = [3.0f32, 4.0, 12.0];
    assert_eq!(l2(&raw), 13.0);

    let noise: Vec<Binary64> = [0.01f64, -0.005, 0.002]
        .iter()
        .map(|x| Binary64::from_bits(x.to_bits()))
        .collect();
    let sent =
        apply_local_privacy(Some(mechanism(1.0, 0.01)), vec![chunk(0, 1, &raw)], &noise).unwrap();

    let sent = decoded(&sent[0].data);
    assert_ne!(sent, raw);
    assert!(l2(&sent) < 1.5, "got L2 {}", l2(&sent));
    assert!((sent[0] - (3.0 / 13.0 + 0.01)).abs() < 1e-6);
}

#[test]
fn clipping_applies_to_the_whole_update_not_to_each_chunk() {
    let sent = apply_local_privacy(
        Some(mechanism(1.0, 0.0)),
        vec![
            chunk(2, 3, &[70.0, 80.0]),
            chunk(0, 3, &[30.0, 40.0]),
            chunk(1, 3, &[50.0, 60.0]),
        ],
        &[],
    )
    .unwrap();

    assert_eq!(sent.len(), 3, "chunk count must be preserved");
    let mut sorted: Vec<DeltaChunk> = sent;
    sorted.sort_by_key(|c| c.chunk_index);
    let bytes: Vec<u8> = sorted.iter().flat_map(|c| c.data.clone()).collect();
    let whole = decoded(&bytes);
    assert_eq!(whole.len(), 6);
    assert!((l2(&whole) - 1.0).abs() < 1e-4, "got L2 {}", l2(&whole));
    assert!(whole.windows(2).all(|w| w[0] < w[1]), "got {whole:?}");
    for (i, c) in sorted.iter().enumerate() {
        assert_eq!(c.chunk_index, i as u32);
        assert_eq!(c.total_chunks, 3);
        assert_eq!(c.data.len(), 8);
        assert_eq!(c.num_samples, 42);
    }
}

#[test]
fn a_submission_that_is_no_whole_number_of_weights_is_refused() {
    let mut broken = chunk(0, 1, &[1.0]);
    broken.data.push(0);
    assert!(assemble(vec![broken.clone()]).is_err());
    let err = apply_local_privacy(Some(mechanism(1.0, 0.0)), vec![broken], &[]).unwrap_err();
    assert!(err.message().contains("5 bytes"), "got {}", err.message());
}
