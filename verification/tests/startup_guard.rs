use conflux::node::startup_guard::{
    validate_client_app_startup, ClientAppKind, RuntimeMode, StartupGuardError,
};

#[test]
fn production_with_stub_and_no_override_fails() {
    let err = validate_client_app_startup(RuntimeMode::Production, false, ClientAppKind::Stub)
        .unwrap_err();
    assert!(matches!(
        err,
        StartupGuardError::ProductionRefusesStubClient
    ));
}

#[test]
fn production_with_stub_and_explicit_override_succeeds() {
    validate_client_app_startup(RuntimeMode::Production, true, ClientAppKind::Stub).unwrap();
}

#[test]
fn production_with_real_kind_succeeds_regardless_of_override() {
    validate_client_app_startup(RuntimeMode::Production, false, ClientAppKind::Real).unwrap();
    validate_client_app_startup(RuntimeMode::Production, true, ClientAppKind::Real).unwrap();
}

#[test]
fn research_with_stub_succeeds_this_is_todays_default() {
    validate_client_app_startup(RuntimeMode::Research, true, ClientAppKind::Stub).unwrap();
    validate_client_app_startup(RuntimeMode::Research, false, ClientAppKind::Stub).unwrap();
}

#[test]
fn research_with_real_kind_succeeds() {
    validate_client_app_startup(RuntimeMode::Research, true, ClientAppKind::Real).unwrap();
}

#[test]
fn the_refusal_names_the_two_ways_out() {
    let text = StartupGuardError::ProductionRefusesStubClient.message();
    assert!(text.contains("CONFLUX_CLIENT_APP_KIND=real"));
    assert!(text.contains("CONFLUX_ALLOW_STUB_CLIENT=true"));
}
