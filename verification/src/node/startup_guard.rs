//! Whether a node may start with the client it is given.
use vstd::prelude::*;

verus! {

/// How strict a deployment is.
#[derive(Debug, Clone, Copy, PartialEq, Eq, Structural)]
pub enum RuntimeMode {
    /// Iterating on an experiment.
    Research,
    /// A live deployment.
    Production,
}

/// What trains behind the node.
#[derive(Debug, Clone, Copy, PartialEq, Eq, Structural)]
pub enum ClientAppKind {
    /// The placeholder with fixed weights.
    Stub,
    /// Anything the operator declares is not the placeholder.
    Real,
}

/// Why a node refused to start.
#[derive(Debug, Clone, Copy, PartialEq, Eq, Structural)]
pub enum StartupGuardError {
    /// Production was asked to run against the placeholder.
    ProductionRefusesStubClient,
}

/// What is said when production is asked to run against the placeholder.
pub const STUB_REFUSED_TEXT: &'static str = "mode = production with a stub ClientApp is refused (allow_stub_client = false in production) — set CONFLUX_CLIENT_APP_KIND=real once a real ClientApp is wired up, or CONFLUX_ALLOW_STUB_CLIENT=true to override for a deliberate production pipeline test";

impl StartupGuardError {
    /// The error in words.
    pub fn message(&self) -> (r: &'static str)
        ensures
            r@ == STUB_REFUSED_TEXT@,
    {
        STUB_REFUSED_TEXT
    }
}

/// Whether a node may serve its local hop: always, except production against
/// the placeholder without the override.
pub fn validate_client_app_startup(
    mode: RuntimeMode,
    allow_stub_client: bool,
    kind: ClientAppKind,
) -> (r: Result<(), StartupGuardError>)
    ensures
        r is Err <==> mode == RuntimeMode::Production && !allow_stub_client && kind
            == ClientAppKind::Stub,
        r is Err ==> r->Err_0 == StartupGuardError::ProductionRefusesStubClient,
{
    if mode == RuntimeMode::Production && !allow_stub_client && kind == ClientAppKind::Stub {
        return Err(StartupGuardError::ProductionRefusesStubClient);
    }
    Ok(())
}

} // verus!
